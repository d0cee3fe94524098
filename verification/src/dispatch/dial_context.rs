//! Registry of minted DIAL proxies, one per device, shared by the SSDP advertisement and
//! search-response paths.
//!
//! Instants are nanoseconds on the monotonic clock. A proxy is live while its handler is registered
//! with the reactor; the caller names the handlers that are.

use vstd::prelude::*;

use crate::dispatch::CaptureKey;
use crate::linear_map;
use crate::linear_map::{LinearMap, MapKey};
use crate::net::ip::SocketAddrV4;

verus! {

/// Cap on concurrent minted DIAL proxies (daemon-wide), so a burst of advertised devices can't
/// exhaust source-side listeners or reactor slots. At the cap a new device's `LOCATION` is reflected
/// unchanged (visible but unproxied) rather than evicting a live proxy. Not capped per device: the
/// endpoint comes from the advertisement's own `LOCATION`, so an attacker names a fresh address per
/// mint and clears any per-identity quota.
pub const MAX_DIAL_PROXIES: usize = 64;

/// What identifies a minted proxy. The target is in the key because two pairs sharing a source both
/// see this endpoint when their target segments overlap.
#[derive(Clone, Copy, PartialEq, Eq, Structural, Debug)]
pub struct DialProxyKey {
    pub source: CaptureKey,
    pub target: CaptureKey,
    pub endpoint: SocketAddrV4,
}

impl MapKey for DialProxyKey {
    type Id = DialProxyKey;

    open spec fn id(&self) -> DialProxyKey {
        *self
    }

    fn same(&self, other: &Self) -> (r: bool) {
        *self == *other
    }
}

/// One minted DIAL description proxy:
/// - `handler`: the proxy's reactor key; goes stale once the proxy is evicted.
/// - `desc_addr`: source-side description-listener spliced into the device's `LOCATION`.
/// - `desc_grace`: eviction deadline, refreshed to each advertisement's `max-age` so a cached
///   `LOCATION` keeps resolving while the device is advertised.
#[derive(Clone, Copy, PartialEq, Eq, Structural, Debug)]
pub struct DialEntry {
    pub handler: u64,
    pub desc_addr: SocketAddrV4,
    pub desc_grace: u64,
}

/// Registry of minted DIAL proxies, owned by the dispatcher so the SSDP advertisement and
/// search-response paths (separate handlers) share one proxy per device. An evicted proxy's entry is
/// pruned on the next lookup or capacity check.
pub struct DialContext {
    pub proxies: LinearMap<DialProxyKey, DialEntry>,
}

/// Why proxies are evicted.
#[derive(Debug)]
pub enum Eviction {
    /// The grace has lapsed at this instant.
    PastGrace(u64),
    /// The source or target capture is one of these: an address move or recreation on that interface
    /// stranded the proxy's listeners or its device-connect egress.
    Changed(Vec<CaptureKey>),
}

impl Eviction {
    /// The proxy is to be evicted.
    pub open spec fn takes(&self, key: DialProxyKey, entry: DialEntry) -> bool {
        match self {
            Eviction::PastGrace(now) => *now >= entry.desc_grace,
            Eviction::Changed(captures) => captures@.contains(key.source) || captures@.contains(
                key.target,
            ),
        }
    }

    fn selects(&self, key: &DialProxyKey, entry: &DialEntry) -> (r: bool)
        ensures
            r == self.takes(*key, *entry),
    {
        match self {
            Eviction::PastGrace(now) => *now >= entry.desc_grace,
            Eviction::Changed(captures) => {
                let mut i: usize = 0;
                while i < captures.len()
                    invariant
                        i <= captures@.len(),
                        *self == Eviction::Changed(*captures),
                        forall|j: int|
                            0 <= j < i ==> #[trigger] captures@[j] != key.source && captures@[j]
                                != key.target,
                    decreases captures@.len() - i,
                {
                    if captures[i] == key.source || captures[i] == key.target {
                        assert(captures@[i as int] == key.source || captures@[i as int]
                            == key.target);
                        return true;
                    }
                    i += 1;
                }
                false
            },
        }
    }
}

/// Which entries stay: the selected ones leave, and so does one whose handler is gone already.
pub open spec fn kept(
    s: Seq<(DialProxyKey, DialEntry)>,
    live: Seq<u64>,
    why: Option<Eviction>,
) -> Seq<(DialProxyKey, DialEntry)>
    decreases s.len(),
{
    if s.len() == 0 {
        Seq::empty()
    } else {
        let before = kept(s.drop_last(), live, why);
        if stays(s.last(), live, why) {
            before.push(s.last())
        } else {
            before
        }
    }
}

/// The entry is not selected and its handler is registered.
pub open spec fn stays(
    entry: (DialProxyKey, DialEntry),
    live: Seq<u64>,
    why: Option<Eviction>,
) -> bool {
    !selected(entry, why) && live.contains(entry.1.handler)
}

/// The entry is selected.
pub open spec fn selected(entry: (DialProxyKey, DialEntry), why: Option<Eviction>) -> bool {
    match why {
        Some(why) => why.takes(entry.0, entry.1),
        None => false,
    }
}

/// The selected entries, in order.
pub open spec fn evicted(s: Seq<(DialProxyKey, DialEntry)>, why: Option<Eviction>) -> Seq<
    (DialProxyKey, DialEntry),
>
    decreases s.len(),
{
    if s.len() == 0 {
        Seq::empty()
    } else {
        let before = evicted(s.drop_last(), why);
        if selected(s.last(), why) {
            before.push(s.last())
        } else {
            before
        }
    }
}

/// What stays is of what was there, in order, and nothing that was to leave stays.
pub proof fn law_nothing_selected_stays(
    s: Seq<(DialProxyKey, DialEntry)>,
    live: Seq<u64>,
    why: Option<Eviction>,
)
    ensures
        forall|i: int|
            0 <= i < kept(s, live, why).len() ==> s.contains(#[trigger] kept(s, live, why)[i])
                && stays(kept(s, live, why)[i], live, why),
        linear_map::unique(s) ==> linear_map::unique(kept(s, live, why)),
        forall|i: int|
            0 <= i < s.len() && stays(#[trigger] s[i], live, why) ==> kept(s, live, why).contains(
                s[i],
            ),
    decreases s.len(),
{
    if s.len() > 0 {
        let t = s.drop_last();
        law_nothing_selected_stays(t, live, why);
        let before = kept(t, live, why);
        let all = kept(s, live, why);
        assert forall|i: int| 0 <= i < all.len() implies s.contains(#[trigger] all[i]) && stays(
            all[i],
            live,
            why,
        ) by {
            if i < before.len() {
                assert(all[i] == before[i]);
                assert(t.contains(before[i]));
                let k: int = choose|k: int| 0 <= k < t.len() && t[k] == before[i];
                assert(s[k] == all[i]);
            } else {
                assert(s[s.len() - 1] == all[i]);
            }
        }
        assert forall|i: int| 0 <= i < s.len() && stays(#[trigger] s[i], live, why) implies all.contains(
            s[i],
        ) by {
            if i < t.len() {
                assert(t[i] == s[i]);
                let k: int = choose|k: int| 0 <= k < before.len() && before[k] == t[i];
                assert(all[k] == s[i]);
            } else {
                assert(all[all.len() - 1] == s[i]);
            }
        }
        if linear_map::unique(s) {
            assert forall|i: int, j: int| 0 <= i < j < t.len() implies #[trigger] t[i].0.id()
                != #[trigger] t[j].0.id() by {
                assert(s[i].0.id() != s[j].0.id());
            }
            assert forall|i: int, j: int| 0 <= i < j < all.len() implies #[trigger] all[i].0.id()
                != #[trigger] all[j].0.id() by {
                assert(all[i] == before[i]);
                if j < before.len() {
                    assert(before[i].0.id() != before[j].0.id());
                } else {
                    assert(t.contains(before[i]));
                    let k: int = choose|k: int| 0 <= k < t.len() && t[k] == before[i];
                    assert(s[k].0.id() != s[s.len() - 1].0.id());
                }
            }
        }
    }
}

/// The soonest of the graces.
pub open spec fn soonest(s: Seq<(DialProxyKey, DialEntry)>) -> Option<u64>
    decreases s.len(),
{
    if s.len() == 0 {
        None
    } else {
        match soonest(s.drop_last()) {
            Some(t) => if s.last().1.desc_grace < t {
                Some(s.last().1.desc_grace)
            } else {
                Some(t)
            },
            None => Some(s.last().1.desc_grace),
        }
    }
}

/// The soonest grace is one of the graces, and none is sooner: before it a sweep has nothing to do.
pub proof fn law_no_grace_is_sooner(s: Seq<(DialProxyKey, DialEntry)>)
    ensures
        s.len() == 0 <==> soonest(s) is None,
        s.len() > 0 ==> exists|i: int|
            0 <= i < s.len() && soonest(s) == Some((#[trigger] s[i]).1.desc_grace),
        forall|i: int|
            0 <= i < s.len() ==> soonest(s)->0 <= (#[trigger] s[i]).1.desc_grace,
    decreases s.len(),
{
    if s.len() > 0 {
        let t = s.drop_last();
        law_no_grace_is_sooner(t);
        assert(s[s.len() - 1] == s.last());
        assert forall|i: int| 0 <= i < s.len() implies soonest(s)->0 <= (#[trigger]
        s[i]).1.desc_grace by {
            if i < t.len() {
                assert(t[i] == s[i]);
            }
        }
        if t.len() > 0 {
            let i: int = choose|i: int|
                0 <= i < t.len() && soonest(t) == Some((#[trigger] t[i]).1.desc_grace);
            assert(s[i] == t[i]);
        }
    }
}

/// Whether a handler is among the registered ones.
fn is_registered(live: &Vec<u64>, handler: u64) -> (r: bool)
    ensures
        r == live@.contains(handler),
{
    let mut i: usize = 0;
    while i < live.len()
        invariant
            i <= live@.len(),
            forall|j: int| 0 <= j < i ==> #[trigger] live@[j] != handler,
        decreases live@.len() - i,
    {
        if live[i] == handler {
            assert(live@[i as int] == handler);
            return true;
        }
        i += 1;
    }
    false
}

impl DialContext {
    /// No device has two proxies.
    pub open spec fn wf(&self) -> bool {
        linear_map::unique(self.proxies.entries@)
    }

    pub fn new() -> (r: Self)
        ensures
            r.wf(),
            r.proxies.entries@ == Seq::<(DialProxyKey, DialEntry)>::empty(),
    {
        DialContext { proxies: LinearMap::new() }
    }

    /// The live proxy's description-listener address for `key`, refreshing its grace to `desc_grace`
    /// (a re-advertisement extends the device's validity). `None` if none is registered. A stale
    /// entry, whose proxy was evicted so its handler is registered no longer, is pruned and treated
    /// as absent.
    pub fn lookup(&mut self, key: DialProxyKey, live: &Vec<u64>, desc_grace: u64) -> (r: Option<
        SocketAddrV4,
    >)
        requires
            old(self).wf(),
        ensures
            final(self).wf(),
            match linear_map::lookup(old(self).proxies.entries@, key) {
                Some(entry) => if live@.contains(entry.handler) {
                    &&& r == Some(entry.desc_addr)
                    &&& final(self).proxies.entries@ == linear_map::put(
                        old(self).proxies.entries@,
                        key,
                        DialEntry { desc_grace, ..entry },
                    )
                } else {
                    &&& r is None
                    &&& final(self).proxies.entries@ == linear_map::without(
                        old(self).proxies.entries@,
                        key,
                    )
                },
                None => r is None && final(self).proxies.entries@ == old(self).proxies.entries@,
            },
    {
        let ghost before = self.proxies.entries@;
        proof {
            linear_map::law_removed_key_is_gone(before, key);
        }
        let found: Option<DialEntry> = match self.proxies.get(&key) {
            Some(entry) => Some(*entry),
            None => None,
        };
        match found {
            Some(entry) => {
                if is_registered(live, entry.handler) {
                    let fresh = DialEntry { desc_grace, ..entry };
                    proof {
                        linear_map::law_put_keeps_keys_unique(before, key, fresh);
                    }
                    let _ = self.proxies.insert(key, fresh);
                    return Some(entry.desc_addr);
                }
                let _ = self.proxies.remove(&key);
                None
            },
            None => None,
        }
    }

    /// Drop the selected entries and those whose handler is gone, returning the selected ones.
    fn prune(&mut self, live: &Vec<u64>, why: &Option<Eviction>) -> (r: Vec<
        (DialProxyKey, DialEntry),
    >)
        requires
            old(self).wf(),
        ensures
            final(self).wf(),
            final(self).proxies.entries@ == kept(old(self).proxies.entries@, live@, *why),
            r@ == evicted(old(self).proxies.entries@, *why),
    {
        let ghost before = self.proxies.entries@;
        let mut stay: Vec<(DialProxyKey, DialEntry)> = Vec::new();
        let mut leave: Vec<(DialProxyKey, DialEntry)> = Vec::new();
        let mut i: usize = 0;
        while i < self.proxies.entries.len()
            invariant
                *self == *old(self),
                before == self.proxies.entries@,
                i <= before.len(),
                stay@ == kept(before.take(i as int), live@, *why),
                leave@ == evicted(before.take(i as int), *why),
            decreases before.len() - i,
        {
            proof {
                assert(before.take(i as int + 1).drop_last() =~= before.take(i as int));
            }
            let (key, entry) = self.proxies.entries[i];
            let gone = match why {
                Some(why) => why.selects(&key, &entry),
                None => false,
            };
            if gone {
                leave.push((key, entry));
            } else if is_registered(live, entry.handler) {
                stay.push((key, entry));
            }
            i += 1;
        }
        proof {
            assert(before.take(i as int) =~= before);
            law_nothing_selected_stays(before, live@, *why);
        }
        self.proxies = LinearMap { entries: stay };
        leave
    }

    /// Whether another proxy may be minted: prune every evicted entry, then check the cap.
    pub fn has_capacity(&mut self, live: &Vec<u64>) -> (r: bool)
        requires
            old(self).wf(),
        ensures
            final(self).wf(),
            final(self).proxies.entries@ == kept(old(self).proxies.entries@, live@, None),
            r == (final(self).proxies.entries@.len() < MAX_DIAL_PROXIES),
    {
        let _ = self.prune(live, &None);
        self.proxies.len() < MAX_DIAL_PROXIES
    }

    /// Record a freshly-minted proxy and its grace, replacing any prior entry for the same key (a
    /// re-mint after the old proxy was evicted).
    pub fn insert(
        &mut self,
        key: DialProxyKey,
        handler: u64,
        desc_addr: SocketAddrV4,
        desc_grace: u64,
    )
        requires
            old(self).wf(),
        ensures
            final(self).wf(),
            final(self).proxies.entries@ == linear_map::put(
                old(self).proxies.entries@,
                key,
                DialEntry { handler, desc_addr, desc_grace },
            ),
    {
        proof {
            linear_map::law_put_keeps_keys_unique(
                self.proxies.entries@,
                key,
                DialEntry { handler, desc_addr, desc_grace },
            );
        }
        let _ = self.proxies.insert(key, DialEntry { handler, desc_addr, desc_grace });
    }

    /// The soonest grace deadline across recorded proxies: when [`sweep`](Self::sweep) next has work.
    /// `None` when empty.
    pub fn next_grace(&self) -> (r: Option<u64>)
        ensures
            r == soonest(self.proxies.entries@),
    {
        let mut best: Option<u64> = None;
        let mut i: usize = 0;
        while i < self.proxies.entries.len()
            invariant
                i <= self.proxies.entries@.len(),
                best == soonest(self.proxies.entries@.take(i as int)),
            decreases self.proxies.entries@.len() - i,
        {
            assert(self.proxies.entries@.take(i as int + 1).drop_last()
                =~= self.proxies.entries@.take(i as int));
            let (_, entry) = self.proxies.entries[i];
            best = match best {
                Some(t) => if entry.desc_grace < t {
                    Some(entry.desc_grace)
                } else {
                    Some(t)
                },
                None => Some(entry.desc_grace),
            };
            i += 1;
        }
        assert(self.proxies.entries@.take(i as int) =~= self.proxies.entries@);
        best
    }

    /// Evict every proxy `why` selects, dropping its entry; the caller unregisters each returned one
    /// from the reactor, tearing down its listeners and connections. A surviving entry whose proxy is
    /// already gone is pruned too, so a stale handler never lingers.
    pub fn evict_where(&mut self, live: &Vec<u64>, why: Eviction) -> (r: Vec<
        (DialProxyKey, DialEntry),
    >)
        requires
            old(self).wf(),
        ensures
            final(self).wf(),
            final(self).proxies.entries@ == kept(old(self).proxies.entries@, live@, Some(why)),
            r@ == evicted(old(self).proxies.entries@, Some(why)),
    {
        self.prune(live, &Some(why))
    }

    /// Evict every proxy whose grace has lapsed (`now` past its `desc_grace`).
    pub fn sweep(&mut self, now: u64, live: &Vec<u64>) -> (r: Vec<(DialProxyKey, DialEntry)>)
        requires
            old(self).wf(),
        ensures
            final(self).wf(),
            final(self).proxies.entries@ == kept(
                old(self).proxies.entries@,
                live@,
                Some(Eviction::PastGrace(now)),
            ),
            r@ == evicted(old(self).proxies.entries@, Some(Eviction::PastGrace(now))),
    {
        self.evict_where(live, Eviction::PastGrace(now))
    }

    /// Evict every proxy whose source or target capture is in `changed`: an address move or
    /// recreation on that interface stranded the proxy's listeners or its device-connect egress, so it
    /// must re-mint against the current interface on the next advertisement rather than be reused.
    pub fn evict_on_interface_change(&mut self, live: &Vec<u64>, changed: Vec<CaptureKey>) -> (r: Vec<
        (DialProxyKey, DialEntry),
    >)
        requires
            old(self).wf(),
        ensures
            final(self).wf(),
            final(self).proxies.entries@ == kept(
                old(self).proxies.entries@,
                live@,
                Some(Eviction::Changed(changed)),
            ),
            r@ == evicted(old(self).proxies.entries@, Some(Eviction::Changed(changed))),
    {
        self.evict_where(live, Eviction::Changed(changed))
    }

    /// How many proxies are recorded.
    pub fn proxy_count(&self) -> (r: usize)
        ensures
            r == self.proxies.entries@.len(),
    {
        self.proxies.len()
    }

    /// The recorded grace for `key`.
    pub fn grace_of(&self, key: DialProxyKey) -> (r: Option<u64>)
        ensures
            r == match linear_map::lookup(self.proxies.entries@, key) {
                Some(entry) => Some(entry.desc_grace),
                None => None,
            },
    {
        match self.proxies.get(&key) {
            Some(entry) => Some(entry.desc_grace),
            None => None,
        }
    }
}

/// A proxy minted where there is capacity keeps to the cap.
pub proof fn law_a_granted_mint_keeps_to_the_cap(
    s: Seq<(DialProxyKey, DialEntry)>,
    live: Seq<u64>,
    key: DialProxyKey,
    entry: DialEntry,
)
    requires
        kept(s, live, None).len() < MAX_DIAL_PROXIES,
    ensures
        linear_map::put(kept(s, live, None), key, entry).len() <= MAX_DIAL_PROXIES,
{
}

/// Before the soonest grace a sweep evicts nothing.
pub proof fn law_a_sweep_waits_for_a_grace(s: Seq<(DialProxyKey, DialEntry)>, now: u64)
    requires
        soonest(s) matches Some(t) ==> now < t,
    ensures
        evicted(s, Some(Eviction::PastGrace(now))).len() == 0,
    decreases s.len(),
{
    if s.len() > 0 {
        law_a_sweep_waits_for_a_grace(s.drop_last(), now);
    }
}

/// A proxy that was just recorded is found, live, at its address; another target's is another proxy.
pub proof fn law_minted_proxy_is_found(
    s: Seq<(DialProxyKey, DialEntry)>,
    key: DialProxyKey,
    entry: DialEntry,
    other: DialProxyKey,
)
    requires
        other != key,
    ensures
        linear_map::lookup(linear_map::put(s, key, entry), key) == Some(entry),
        linear_map::lookup(linear_map::put(s, key, entry), other) == linear_map::lookup(s, other),
{
    linear_map::law_lookup_finds_what_was_put(s, key, entry);
    linear_map::law_put_leaves_other_keys(s, key, entry, other);
}

/// A sweep takes the proxies whose grace has come, and no others; a change of interfaces those with the
/// source or the target among them, and no others. What is taken comes out in order.
pub proof fn law_an_eviction_takes_what_it_is_for(
    s: Seq<(DialProxyKey, DialEntry)>,
    now: u64,
    changed: Vec<CaptureKey>,
)
    ensures
        evicted(s, Some(Eviction::PastGrace(now))) == s.filter(
            |e: (DialProxyKey, DialEntry)| e.1.desc_grace <= now,
        ),
        evicted(s, Some(Eviction::Changed(changed))) == s.filter(
            |e: (DialProxyKey, DialEntry)|
                changed@.contains(e.0.source) || changed@.contains(e.0.target),
        ),
    decreases s.len(),
{
    reveal(Seq::filter);
    if s.len() > 0 {
        law_an_eviction_takes_what_it_is_for(s.drop_last(), now, changed);
    }
}

/// What stays behind a sweep has its grace ahead and a handler that is registered; what stays behind a
/// change of interfaces is of none of them; and with nothing to evict, what is registered stays.
pub proof fn law_what_stays_is_registered(
    s: Seq<(DialProxyKey, DialEntry)>,
    live: Seq<u64>,
    now: u64,
    changed: Vec<CaptureKey>,
)
    ensures
        kept(s, live, Some(Eviction::PastGrace(now))) == s.filter(
            |e: (DialProxyKey, DialEntry)| now < e.1.desc_grace && live.contains(e.1.handler),
        ),
        kept(s, live, Some(Eviction::Changed(changed))) == s.filter(
            |e: (DialProxyKey, DialEntry)|
                !changed@.contains(e.0.source) && !changed@.contains(e.0.target) && live.contains(
                    e.1.handler,
                ),
        ),
        kept(s, live, None) == s.filter(
            |e: (DialProxyKey, DialEntry)| live.contains(e.1.handler),
        ),
    decreases s.len(),
{
    reveal(Seq::filter);
    if s.len() > 0 {
        law_what_stays_is_registered(s.drop_last(), live, now, changed);
    }
}

/// No more than 64 proxies are recorded where each is minted with capacity.
pub proof fn law_the_cap_is_sixty_four(
    s: Seq<(DialProxyKey, DialEntry)>,
    live: Seq<u64>,
    key: DialProxyKey,
    entry: DialEntry,
)
    requires
        kept(s, live, None).len() < MAX_DIAL_PROXIES,
    ensures
        linear_map::put(kept(s, live, None), key, entry).len() <= 64,
{
}

} // verus!
