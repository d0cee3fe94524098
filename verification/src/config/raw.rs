//! The decoded configuration, before validation.

use vstd::prelude::*;

use crate::config;
use crate::config::error::{ConfigError, Fault};
use crate::config::value::{
    AddressFamily, GroupList, InterfaceName, LogLevel, PeerList, Port, PortList, ReflectorName,
};
use crate::net::ip::IpAddr;
use crate::net::mac::{MacAddr, MacSet};
use crate::text;

verus! {

/// One entry as written.
#[derive(Debug)]
pub struct RawReflector {
    /// Set only by the environment; a file reflector is named by its table key.
    pub name: Option<ReflectorName>,
    pub source_if: InterfaceName,
    pub target_if: InterfaceName,
    pub source_peers: Option<PeerList>,
    pub target_peers: Option<PeerList>,
    pub macs: Option<MacSet>,
    pub address_family: AddressFamily,
    pub wol: bool,
    pub wol_ports: Option<PortList>,
    pub mdns: bool,
    pub ssdp: bool,
    pub dial: bool,
    pub wsd: bool,
    pub bidirectional: bool,
    pub udp_ports: Option<PortList>,
    pub udp_groups: Option<GroupList>,
    pub udp_broadcast: bool,
}

/// What a [`RawReflector`] says.
pub struct RawEntry {
    pub name: Option<Seq<char>>,
    pub source_if: Seq<char>,
    pub target_if: Seq<char>,
    pub source_peers: Option<Seq<IpAddr>>,
    pub target_peers: Option<Seq<IpAddr>>,
    pub macs: Option<Seq<MacAddr>>,
    pub address_family: AddressFamily,
    pub wol: bool,
    pub wol_ports: Option<Seq<Port>>,
    pub mdns: bool,
    pub ssdp: bool,
    pub dial: bool,
    pub wsd: bool,
    pub bidirectional: bool,
    pub udp_ports: Option<Seq<Port>>,
    pub udp_groups: Option<Seq<IpAddr>>,
    pub udp_broadcast: bool,
}

impl View for RawReflector {
    type V = RawEntry;

    open spec fn view(&self) -> RawEntry {
        RawEntry {
            name: match self.name {
                Some(name) => Some(name@),
                None => None,
            },
            source_if: self.source_if@,
            target_if: self.target_if@,
            source_peers: config::listed(self.source_peers),
            target_peers: config::listed(self.target_peers),
            macs: config::listed(self.macs),
            address_family: self.address_family,
            wol: self.wol,
            wol_ports: config::listed(self.wol_ports),
            mdns: self.mdns,
            ssdp: self.ssdp,
            dial: self.dial,
            wsd: self.wsd,
            bidirectional: self.bidirectional,
            udp_ports: config::listed(self.udp_ports),
            udp_groups: config::listed(self.udp_groups),
            udp_broadcast: self.udp_broadcast,
        }
    }
}

impl RawReflector {
    /// Each list of the entry is one that its rule accepts.
    pub open spec fn wf(&self) -> bool {
        &&& config::list_wf(self.source_peers)
        &&& config::list_wf(self.target_peers)
        &&& config::list_wf(self.macs)
        &&& config::list_wf(self.wol_ports)
        &&& config::list_wf(self.udp_ports)
        &&& config::list_wf(self.udp_groups)
    }
}

/// A whole configuration as written. The reflectors are in the order of their keys, no key twice.
#[derive(Debug)]
pub struct RawConfig {
    pub log_level: Option<LogLevel>,
    /// Seconds between memory-footprint diagnostic reports; `0` or absent disables them.
    pub debug_memory_interval_secs: Option<u64>,
    /// Seconds between periodic counter summaries; `0` or absent disables them.
    pub counters_interval_secs: Option<u64>,
    pub reflectors: Vec<(String, RawReflector)>,
}

/// What a [`RawConfig`] says.
pub struct RawSettings {
    pub log_level: Option<LogLevel>,
    pub debug_memory_interval_secs: Option<u64>,
    pub counters_interval_secs: Option<u64>,
    pub reflectors: Seq<(Seq<char>, RawEntry)>,
}

/// What keyed entries say.
pub open spec fn keyed(s: Seq<(String, RawReflector)>) -> Seq<(Seq<char>, RawEntry)> {
    Seq::new(s.len(), |i: int| (s[i].0@, s[i].1@))
}

impl View for RawConfig {
    type V = RawSettings;

    open spec fn view(&self) -> RawSettings {
        RawSettings {
            log_level: self.log_level,
            debug_memory_interval_secs: self.debug_memory_interval_secs,
            counters_interval_secs: self.counters_interval_secs,
            reflectors: keyed(self.reflectors@),
        }
    }
}

/// Each list of each entry is one that its rule accepts.
pub open spec fn all_wf(s: Seq<(String, RawReflector)>) -> bool {
    forall|i: int| 0 <= i < s.len() ==> (#[trigger] s[i]).1.wf()
}

/// The keys ascend.
pub open spec fn ascending<T>(s: Seq<(Seq<char>, T)>) -> bool {
    forall|i: int, j: int|
        0 <= i < j < s.len() ==> text::comes_before(#[trigger] s[i].0, #[trigger] s[j].0)
}

/// How many keys come before `key`, in a list whose keys ascend.
pub open spec fn slot<T>(s: Seq<(Seq<char>, T)>, key: Seq<char>) -> nat
    decreases s.len(),
{
    if s.len() > 0 && text::comes_before(s[0].0, key) {
        1 + slot(s.skip(1), key)
    } else {
        0
    }
}

/// The list with `value` under `key`, in the place of what stood there.
pub open spec fn placed<T>(s: Seq<(Seq<char>, T)>, key: Seq<char>, value: T) -> Seq<
    (Seq<char>, T),
> {
    let i: int = slot(s, key) as int;
    if i < s.len() && s[i].0 == key {
        s.update(i, (key, value))
    } else {
        s.insert(i, (key, value))
    }
}

/// The first that is set.
pub open spec fn or<T>(a: Option<T>, b: Option<T>) -> Option<T> {
    if a is Some {
        a
    } else {
        b
    }
}

/// Some key names the reflector `name`, white space around it and case aside.
pub open spec fn taken<T>(s: Seq<(Seq<char>, T)>, name: Seq<char>) -> bool {
    exists|i: int|
        0 <= i < s.len() && text::folded(text::trimmed((#[trigger] s[i]).0)) == text::folded(name)
}

/// The entries of a file with those of the environment in their places, up to the first whose name
/// the entries so far already use.
pub open spec fn merged(file: Seq<(Seq<char>, RawEntry)>, env: Seq<(Seq<char>, RawEntry)>) -> (
    Seq<(Seq<char>, RawEntry)>,
    Option<Fault>,
)
    decreases env.len(),
{
    if env.len() == 0 {
        (file, None)
    } else {
        let (name, raw) = env[0];
        if taken(file, name) {
            (file, Some(Fault::DuplicateReflector { name }))
        } else {
            merged(placed(file, name, raw), env.skip(1))
        }
    }
}

proof fn lemma_slot<T>(s: Seq<(Seq<char>, T)>, key: Seq<char>, n: int)
    requires
        0 <= n <= s.len(),
        forall|i: int| 0 <= i < n ==> text::comes_before((#[trigger] s[i]).0, key),
        n < s.len() ==> !text::comes_before(s[n].0, key),
    ensures
        slot(s, key) == n,
    decreases n,
{
    if n > 0 {
        let t = s.skip(1);
        assert(text::comes_before(s[0].0, key));
        assert forall|i: int| 0 <= i < n - 1 implies text::comes_before((#[trigger] t[i]).0, key) by {
            assert(t[i] == s[i + 1]);
        }
        lemma_slot(t, key, n - 1);
    }
}

proof fn lemma_slot_splits<T>(s: Seq<(Seq<char>, T)>, key: Seq<char>)
    ensures
        slot(s, key) <= s.len(),
        forall|i: int| 0 <= i < slot(s, key) ==> text::comes_before((#[trigger] s[i]).0, key),
        slot(s, key) < s.len() ==> !text::comes_before(s[slot(s, key) as int].0, key),
    decreases s.len(),
{
    if s.len() > 0 && text::comes_before(s[0].0, key) {
        let t = s.skip(1);
        lemma_slot_splits(t, key);
        assert forall|i: int| 0 <= i < slot(s, key) implies text::comes_before(
            (#[trigger] s[i]).0,
            key,
        ) by {
            if i > 0 {
                assert(s[i] == t[i - 1]);
            }
        }
    }
}

/// Placing a key keeps the keys ascending.
pub proof fn law_placing_keeps_keys_ascending<T>(s: Seq<(Seq<char>, T)>, key: Seq<char>, value: T)
    requires
        ascending(s),
    ensures
        ascending(placed(s, key, value)),
{
    lemma_slot_splits(s, key);
    let n: int = slot(s, key) as int;
    let t = placed(s, key, value);
    assert forall|i: int, j: int| 0 <= i < j < t.len() implies text::comes_before(
        #[trigger] t[i].0,
        #[trigger] t[j].0,
    ) by {
        if n < s.len() && s[n].0 == key {
            assert(t[i].0 == s[i].0 && t[j].0 == s[j].0);
        } else {
            let a: int = if i < n { i } else { i - 1 };
            let b: int = if j < n { j } else { j - 1 };
            if n < s.len() {
                text::lemma_order_is_total(key, s[n].0);
            }
            if j == n {
                assert(t[i] == s[i]);
            } else if i == n {
                assert(t[j] == s[b]);
                if b > n {
                    text::lemma_order_is_transitive(key, s[n].0, s[b].0);
                }
            } else {
                assert(t[i] == s[a] && t[j] == s[b]);
            }
        }
    }
}

/// Merging keeps the keys ascending.
pub proof fn law_merging_keeps_keys_ascending(
    file: Seq<(Seq<char>, RawEntry)>,
    env: Seq<(Seq<char>, RawEntry)>,
)
    requires
        ascending(file),
    ensures
        ascending(merged(file, env).0),
    decreases env.len(),
{
    if env.len() > 0 {
        let (name, raw) = env[0];
        if !taken(file, name) {
            law_placing_keeps_keys_ascending(file, name, raw);
            law_merging_keeps_keys_ascending(placed(file, name, raw), env.skip(1));
        }
    }
}

proof fn lemma_placing_keeps_names<T>(
    s: Seq<(Seq<char>, T)>,
    key: Seq<char>,
    value: T,
    name: Seq<char>,
)
    requires
        taken(s, name),
    ensures
        taken(placed(s, key, value), name),
{
    lemma_slot_splits(s, key);
    let n: int = slot(s, key) as int;
    let t = placed(s, key, value);
    let i: int = choose|i: int|
        0 <= i < s.len() && text::folded(text::trimmed((#[trigger] s[i]).0)) == text::folded(name);
    if n < s.len() && s[n].0 == key {
        assert(t[i].0 == s[i].0);
    } else if i < n {
        assert(t[i] == s[i]);
    } else {
        assert(t[i + 1] == s[i]);
    }
}

/// A name that both the file and the environment define is rejected.
pub proof fn law_a_name_in_both_sources_is_rejected(
    file: Seq<(Seq<char>, RawEntry)>,
    env: Seq<(Seq<char>, RawEntry)>,
    j: int,
)
    requires
        0 <= j < env.len(),
        taken(file, env[j].0),
    ensures
        merged(file, env).1 is Some,
    decreases env.len(),
{
    let (name, raw) = env[0];
    if j > 0 && !taken(file, name) {
        lemma_placing_keeps_names(file, name, raw, env[j].0);
        assert(env.skip(1)[j - 1] == env[j]);
        law_a_name_in_both_sources_is_rejected(placed(file, name, raw), env.skip(1), j - 1);
    }
}

/// Put `value` under `key`, in the place of what stood there.
pub fn place(s: &mut Vec<(String, RawReflector)>, key: String, value: RawReflector)
    ensures
        keyed(final(s)@) == placed(keyed(old(s)@), key@, value@),
        all_wf(old(s)@) && value.wf() ==> all_wf(final(s)@),
{
    let ghost view = keyed(s@);
    let name = text::chars(key.as_str());
    let mut i: usize = 0;
    let mut behind = false;
    while i < s.len() && !behind
        invariant
            i <= s@.len(),
            name@ == key@,
            *s == *old(s),
            view == keyed(s@),
            forall|j: int| 0 <= j < i ==> text::comes_before((#[trigger] view[j]).0, key@),
            behind ==> i < s@.len() && !text::comes_before(view[i as int].0, key@),
        decreases s@.len() - i, !behind as int,
    {
        let other = text::chars(s[i].0.as_str());
        assert(view[i as int].0 == other@);
        if text::precedes(&other, &name) {
            i += 1;
        } else {
            behind = true;
        }
    }
    proof {
        lemma_slot(view, key@, i as int);
    }
    if i < s.len() && s[i].0 == key {
        s.set(i, (key, value));
    } else {
        s.insert(i, (key, value));
    }
    assert(keyed(s@) =~= placed(view, key@, value@));
}

impl RawConfig {
    /// A configuration that says nothing.
    pub fn empty() -> (r: Self)
        ensures
            r@ == (RawSettings {
                log_level: None,
                debug_memory_interval_secs: None,
                counters_interval_secs: None,
                reflectors: Seq::empty(),
            }),
    {
        let r = RawConfig {
            log_level: None,
            debug_memory_interval_secs: None,
            counters_interval_secs: None,
            reflectors: Vec::new(),
        };
        assert(keyed(r.reflectors@) =~= Seq::empty());
        r
    }

    /// Each list of each entry is one that its rule accepts.
    pub open spec fn wf(&self) -> bool {
        all_wf(self.reflectors@)
    }

    /// Whether a key names the reflector `name`.
    fn takes(&self, name: &String) -> (r: bool)
        ensures
            r == taken(self@.reflectors, name@),
    {
        let wanted = text::chars(name.as_str());
        let wanted = text::fold(&wanted);
        let ghost view = keyed(self.reflectors@);
        let mut i: usize = 0;
        while i < self.reflectors.len()
            invariant
                i <= self.reflectors@.len(),
                view == keyed(self.reflectors@),
                wanted@ == text::folded(name@),
                forall|j: int|
                    0 <= j < i ==> text::folded(text::trimmed((#[trigger] view[j]).0))
                        != text::folded(name@),
            decreases self.reflectors@.len() - i,
        {
            let key = text::chars(self.reflectors[i].0.as_str());
            assert(view[i as int].0 == key@);
            let folded = text::fold(text::trim(&key));
            if text::same(&folded, &wanted) {
                return true;
            }
            i += 1;
        }
        false
    }

    /// Take the settings of the environment over those of the file, and its reflectors beside
    /// them. A name from the environment is lowercase and unpadded while a table key is verbatim,
    /// so the names are compared trimmed and case-insensitively.
    pub fn merge_env(&mut self, env: RawConfig) -> (r: Result<(), ConfigError>)
        ensures
            final(self)@ == (RawSettings {
                log_level: or(env.log_level, old(self).log_level),
                debug_memory_interval_secs: or(
                    env.debug_memory_interval_secs,
                    old(self).debug_memory_interval_secs,
                ),
                counters_interval_secs: or(
                    env.counters_interval_secs,
                    old(self).counters_interval_secs,
                ),
                reflectors: merged(old(self)@.reflectors, env@.reflectors).0,
            }),
            match r {
                Ok(_) => merged(old(self)@.reflectors, env@.reflectors).1 is None,
                Err(e) => merged(old(self)@.reflectors, env@.reflectors).1 == Some(e@),
            },
            old(self).wf() && env.wf() ==> final(self).wf(),
    {
        if env.log_level.is_some() {
            self.log_level = env.log_level;
        }
        if env.debug_memory_interval_secs.is_some() {
            self.debug_memory_interval_secs = env.debug_memory_interval_secs;
        }
        if env.counters_interval_secs.is_some() {
            self.counters_interval_secs = env.counters_interval_secs;
        }
        let ghost file = old(self)@.reflectors;
        let ghost other = env@.reflectors;
        let mut rest = env.reflectors;
        while rest.len() > 0
            invariant
                file == old(self)@.reflectors,
                other == env@.reflectors,
                old(self).wf() && env.wf() ==> self.wf() && all_wf(rest@),
                merged(file, other) == merged(self@.reflectors, keyed(rest@)),
                self.log_level == or(env.log_level, old(self).log_level),
                self.debug_memory_interval_secs == or(
                    env.debug_memory_interval_secs,
                    old(self).debug_memory_interval_secs,
                ),
                self.counters_interval_secs == or(
                    env.counters_interval_secs,
                    old(self).counters_interval_secs,
                ),
            decreases rest@.len(),
        {
            let ghost before = rest@;
            let (name, reflector) = rest.remove(0);
            assert(keyed(before)[0] == (name@, reflector@));
            assert(keyed(rest@) =~= keyed(before).skip(1));
            if self.takes(&name) {
                return Err(ConfigError::DuplicateReflector { name });
            }
            place(&mut self.reflectors, name, reflector);
        }
        Ok(())
    }
}

/// What stands under a key of a list.
pub open spec fn under<T>(s: Seq<(Seq<char>, T)>, key: Seq<char>, value: T) -> bool {
    exists|i: int| 0 <= i < s.len() && (#[trigger] s[i]).0 == key && s[i].1 == value
}

/// What is placed under a key stands there, nothing else does, and what stands under another key stays.
pub proof fn law_what_is_placed_stands_under_its_key<T>(
    s: Seq<(Seq<char>, T)>,
    key: Seq<char>,
    value: T,
    other: Seq<char>,
    x: T,
)
    requires
        ascending(s),
        other != key,
    ensures
        under(placed(s, key, value), key, value),
        under(placed(s, key, value), other, x) <==> under(s, other, x),
        placed(s, key, value).len() <= s.len() + 1,
{
    lemma_slot_splits(s, key);
    let t = placed(s, key, value);
    let n: int = slot(s, key) as int;
    assert(t[n] == (key, value));
    if under(s, other, x) {
        let i: int = choose|i: int| 0 <= i < s.len() && (#[trigger] s[i]).0 == other && s[i].1 == x;
        if n < s.len() && s[n].0 == key {
            assert(t[i] == s[i]);
        } else if i < n {
            assert(t[i] == s[i]);
        } else {
            assert(t[i + 1] == s[i]);
        }
    }
    if under(t, other, x) {
        let i: int = choose|i: int| 0 <= i < t.len() && (#[trigger] t[i]).0 == other && t[i].1 == x;
        if n < s.len() && s[n].0 == key {
            assert(s[i] == t[i]);
        } else if i < n {
            assert(s[i] == t[i]);
        } else {
            assert(i > n);
            assert(s[i - 1] == t[i]);
        }
    }
}

/// What a file and the environment make together holds, under a key that the environment does not
/// name, what the file does.
pub proof fn law_merging_leaves_the_other_entries(
    file: Seq<(Seq<char>, RawEntry)>,
    env: Seq<(Seq<char>, RawEntry)>,
    key: Seq<char>,
    x: RawEntry,
)
    requires
        ascending(file),
        forall|i: int| 0 <= i < env.len() ==> (#[trigger] env[i]).0 != key,
    ensures
        under(merged(file, env).0, key, x) <==> under(file, key, x),
    decreases env.len(),
{
    if env.len() > 0 {
        let (name, raw) = env[0];
        assert(env[0].0 != key);
        if !taken(file, name) {
            let rest = env.skip(1);
            assert forall|i: int| 0 <= i < rest.len() implies (#[trigger] rest[i]).0 != key by {
                assert(rest[i] == env[i + 1]);
            }
            law_placing_keeps_keys_ascending(file, name, raw);
            law_what_is_placed_stands_under_its_key(file, name, raw, key, x);
            law_merging_leaves_the_other_entries(placed(file, name, raw), rest, key, x);
        }
    }
}

/// Every entry of the environment is in what it makes together with a file, where no name is in use
/// twice.
pub proof fn law_merging_takes_every_entry_of_the_environment(
    file: Seq<(Seq<char>, RawEntry)>,
    env: Seq<(Seq<char>, RawEntry)>,
    j: int,
)
    requires
        ascending(file),
        0 <= j < env.len(),
        forall|a: int, b: int|
            0 <= a < b < env.len() ==> (#[trigger] env[a]).0 != (#[trigger] env[b]).0,
        merged(file, env).1 is None,
    ensures
        under(merged(file, env).0, env[j].0, env[j].1),
    decreases env.len(),
{
    let (name, raw) = env[0];
    let next = placed(file, name, raw);
    let rest = env.skip(1);
    law_placing_keeps_keys_ascending(file, name, raw);
    assert forall|a: int, b: int| 0 <= a < b < rest.len() implies (#[trigger] rest[a]).0 != (
    #[trigger] rest[b]).0 by {
        assert(rest[a] == env[a + 1] && rest[b] == env[b + 1]);
    }
    if j > 0 {
        law_merging_takes_every_entry_of_the_environment(next, rest, j - 1);
        assert(rest[j - 1] == env[j]);
    } else {
        assert forall|i: int| 0 <= i < rest.len() implies (#[trigger] rest[i]).0 != name by {
            assert(rest[i] == env[i + 1]);
            assert(env[0].0 != env[i + 1].0);
        }
        let other = name.push('x');
        assert(other.len() != name.len());
        law_what_is_placed_stands_under_its_key(file, name, raw, other, raw);
        law_merging_leaves_the_other_entries(next, rest, name, raw);
    }
}

} // verus!
