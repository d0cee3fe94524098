//! Bringing the daemon up: which captures to open, which legs to build, and what the log says of the
//! configuration.

use vstd::prelude::*;

use crate::config::value::InterfaceName;
use crate::config::{Config, Entry, Reflector};
use crate::net::MAX_MTU;
use crate::number;
use crate::text;

verus! {

/// `1 reflector`, `2 reflectors`.
pub open spec fn reflectors_text(count: nat) -> Seq<char> {
    number::decimal(count) + " reflector"@ + (if count == 1 {
        ""@
    } else {
        "s"@
    })
}

fn push_reflectors(out: &mut String, count: usize)
    ensures
        final(out)@ == old(out)@ + reflectors_text(count as nat),
{
    let ghost before = out@;
    text::push_decimal(out, count as u64);
    out.append(" reflector");
    out.append(
        if count == 1 {
            ""
        } else {
            "s"
        },
    );
    assert(out@ =~= before + reflectors_text(count as nat));
}

/// The answer of a configuration check.
pub fn check_config_line(config: &Config) -> (r: String)
    ensures
        r@ == "config ok: "@ + reflectors_text(config.reflectors@.len()),
{
    let mut line = "config ok: ".to_owned();
    push_reflectors(&mut line, config.reflectors.len());
    line
}

/// The log line of a configuration that was loaded.
pub fn loaded_line(config: &Config) -> (r: String)
    ensures
        r@ == "loaded "@ + reflectors_text(config.reflectors@.len()),
{
    let mut line = "loaded ".to_owned();
    push_reflectors(&mut line, config.reflectors.len());
    line
}

/// The names with one more, unless it is there already.
pub open spec fn with_name(names: Seq<Seq<char>>, name: Seq<char>) -> Seq<Seq<char>> {
    if names.contains(name) {
        names
    } else {
        names.push(name)
    }
}

/// The interfaces of the entries, each once, in the order of their first use.
pub open spec fn interfaces(entries: Seq<Entry>) -> Seq<Seq<char>>
    decreases entries.len(),
{
    if entries.len() == 0 {
        Seq::empty()
    } else {
        let entry = entries.last();
        with_name(
            with_name(interfaces(entries.drop_last()), entry.source_if),
            entry.target_if,
        )
    }
}

/// Each interface is opened once, and every interface of an entry is.
pub proof fn law_each_interface_is_opened_once(entries: Seq<Entry>)
    ensures
        interfaces(entries).no_duplicates(),
        forall|i: int|
            0 <= i < entries.len() ==> interfaces(entries).contains(
                (#[trigger] entries[i]).source_if,
            ) && interfaces(entries).contains(entries[i].target_if),
    decreases entries.len(),
{
    if entries.len() > 0 {
        let t = entries.drop_last();
        law_each_interface_is_opened_once(t);
        let last = entries.last();
        let before = interfaces(t);
        let mid = with_name(before, last.source_if);
        lemma_with_name(before, last.source_if);
        lemma_with_name(mid, last.target_if);
        assert forall|i: int| 0 <= i < entries.len() implies interfaces(entries).contains(
            (#[trigger] entries[i]).source_if,
        ) && interfaces(entries).contains(entries[i].target_if) by {
            if i < t.len() {
                assert(t[i] == entries[i]);
                assert(before.contains(entries[i].source_if));
                assert(mid.contains(entries[i].source_if));
                assert(mid.contains(entries[i].target_if));
            }
        }
    }
}

proof fn lemma_with_name(names: Seq<Seq<char>>, name: Seq<char>)
    requires
        names.no_duplicates(),
    ensures
        with_name(names, name).no_duplicates(),
        with_name(names, name).contains(name),
        forall|x: Seq<char>| #[trigger] names.contains(x) ==> with_name(names, name).contains(x),
{
    let all = with_name(names, name);
    if !names.contains(name) {
        assert(all[names.len() as int] == name);
        assert forall|x: Seq<char>| #[trigger] names.contains(x) implies all.contains(x) by {
            let k: int = choose|k: int| 0 <= k < names.len() && names[k] == x;
            assert(all[k] == x);
        }
        assert forall|i: int, j: int| 0 <= i < all.len() && 0 <= j < all.len() && i != j implies all[i]
            != all[j] by {
            if i < names.len() && j < names.len() {
            } else if i < names.len() {
                assert(names.contains(names[i]));
            } else {
                assert(names.contains(names[j]));
            }
        }
    }
}

/// The entries of a configuration.
pub open spec fn entries_of(reflectors: Seq<Reflector>) -> Seq<Entry> {
    Seq::new(reflectors.len(), |i: int| reflectors[i]@)
}

fn push_name(names: &mut Vec<String>, name: &InterfaceName)
    ensures
        text::views(final(names)@) == with_name(text::views(old(names)@), name@),
{
    let ghost before = text::views(names@);
    let mut i: usize = 0;
    while i < names.len()
        invariant
            *names == *old(names),
            i <= names@.len(),
            before == text::views(names@),
            forall|j: int| 0 <= j < i ==> #[trigger] before[j] != name@,
        decreases names@.len() - i,
    {
        assert(before[i as int] == names@[i as int]@);
        if names[i] == name.name {
            return;
        }
        i += 1;
    }
    assert(before.len() == names@.len());
    assert(!before.contains(name@));
    names.push(name.as_str().to_owned());
    assert(text::views(names@) =~= before.push(name@));
}

/// The interfaces whose captures are to be opened, in order. A capture that can't open aborts
/// startup: a daemon that looks healthy but reflects nothing is worse.
pub fn open_captures(config: &Config) -> (r: Vec<String>)
    ensures
        text::views(r@) == interfaces(entries_of(config.reflectors@)),
{
    let mut names: Vec<String> = Vec::new();
    let mut i: usize = 0;
    assert(text::views(names@) =~= Seq::empty());
    while i < config.reflectors.len()
        invariant
            i <= config.reflectors@.len(),
            text::views(names@) == interfaces(entries_of(config.reflectors@.take(i as int))),
        decreases config.reflectors@.len() - i,
    {
        let ghost more = entries_of(config.reflectors@.take(i as int + 1));
        assert(more.drop_last() =~= entries_of(config.reflectors@.take(i as int)));
        assert(more.last() == config.reflectors@[i as int]@);
        let reflector = &config.reflectors[i];
        push_name(&mut names, &reflector.source_if);
        push_name(&mut names, &reflector.target_if);
        i += 1;
    }
    assert(config.reflectors@.take(i as int) =~= config.reflectors@);
    names
}

/// One direction of one entry.
#[derive(Clone, Copy, PartialEq, Eq, Structural, Debug)]
pub struct Leg {
    /// Which entry.
    pub entry: usize,
    /// With its interfaces swapped.
    pub reversed: bool,
}

/// The legs of the first `n` entries: each entry, and behind a bidirectional one its reverse.
pub open spec fn legs_of(entries: Seq<Entry>, n: nat) -> Seq<Leg>
    decreases n,
{
    if n == 0 {
        Seq::empty()
    } else {
        let before = legs_of(entries, (n - 1) as nat).push(
            Leg { entry: (n - 1) as usize, reversed: false },
        );
        if entries[n - 1].bidirectional {
            before.push(Leg { entry: (n - 1) as usize, reversed: true })
        } else {
            before
        }
    }
}

/// The legs to build, in order: each entry, and behind a bidirectional one its reverse.
pub fn legs(config: &Config) -> (r: Vec<Leg>)
    ensures
        r@ == legs_of(entries_of(config.reflectors@), config.reflectors@.len()),
{
    let mut out: Vec<Leg> = Vec::new();
    let mut i: usize = 0;
    while i < config.reflectors.len()
        invariant
            i <= config.reflectors@.len(),
            out@ == legs_of(entries_of(config.reflectors@), i as nat),
        decreases config.reflectors@.len() - i,
    {
        assert(entries_of(config.reflectors@)[i as int] == config.reflectors@[i as int]@);
        out.push(Leg { entry: i, reversed: false });
        if config.reflectors[i].bidirectional {
            out.push(Leg { entry: i, reversed: true });
        }
        i += 1;
    }
    out
}

/// What the log says of an interface whose MTU is above the ceiling.
pub open spec fn ceiling_text(name: Seq<char>, if_name: Seq<char>, mtu: u32) -> Seq<Seq<char>> {
    if mtu > MAX_MTU {
        seq![
            name + ": "@ + if_name + " MTU "@ + number::decimal(mtu as nat) + " exceeds the "@
                + number::decimal(MAX_MTU as nat)
                + "-byte ceiling; larger packets are not reflected"@,
        ]
    } else {
        Seq::empty()
    }
}

/// The smaller of two MTUs.
pub open spec fn smaller(a: u32, b: u32) -> u32 {
    if b < a {
        b
    } else {
        a
    }
}

/// What the log says of two interfaces whose MTUs differ, unless neither fits under the ceiling.
pub open spec fn mismatch_text(
    name: Seq<char>,
    source_if: Seq<char>,
    source: u32,
    target_if: Seq<char>,
    target: u32,
) -> Seq<Seq<char>> {
    if source != target && smaller(source, target) <= MAX_MTU {
        seq![
            name + ": MTU mismatch: "@ + source_if + " has "@ + number::decimal(source as nat)
                + ", "@ + target_if + " has "@ + number::decimal(target as nat)
                + "; packets larger than "@ + number::decimal(smaller(source, target) as nat)
                + " bytes cannot cross toward the smaller side and are dropped"@,
        ]
    } else {
        Seq::empty()
    }
}

/// What the log says of an entry's MTUs, where both are known.
pub open spec fn mtu_texts(entry: Entry, source: Option<u32>, target: Option<u32>) -> Seq<
    Seq<char>,
> {
    match (source, target) {
        (Some(source), Some(target)) => ceiling_text(entry.name, entry.source_if, source)
            + ceiling_text(entry.name, entry.target_if, target) + mismatch_text(
            entry.name,
            entry.source_if,
            source,
            entry.target_if,
            target,
        ),
        _ => Seq::empty(),
    }
}

fn push_ceiling(lines: &mut Vec<String>, name: &str, if_name: &str, mtu: u32)
    ensures
        text::views(final(lines)@) == text::views(old(lines)@) + ceiling_text(name@, if_name@, mtu),
{
    let ghost before = text::views(lines@);
    if mtu as u64 > MAX_MTU as u64 {
        let mut line = name.to_owned();
        line.append(": ");
        line.append(if_name);
        line.append(" MTU ");
        text::push_decimal(&mut line, mtu as u64);
        line.append(" exceeds the ");
        text::push_decimal(&mut line, MAX_MTU as u64);
        line.append("-byte ceiling; larger packets are not reflected");
        lines.push(line);
        assert(text::views(lines@) =~= before.push(line@));
    }
    assert(text::views(lines@) =~= before + ceiling_text(name@, if_name@, mtu));
}

fn push_mismatch(
    lines: &mut Vec<String>,
    name: &str,
    source_if: &str,
    source: u32,
    target_if: &str,
    target: u32,
)
    ensures
        text::views(final(lines)@) == text::views(old(lines)@) + mismatch_text(
            name@,
            source_if@,
            source,
            target_if@,
            target,
        ),
{
    let ghost before = text::views(lines@);
    let least: u32 = if target < source {
        target
    } else {
        source
    };
    if source != target && least as u64 <= MAX_MTU as u64 {
        let mut line = name.to_owned();
        line.append(": MTU mismatch: ");
        line.append(source_if);
        line.append(" has ");
        text::push_decimal(&mut line, source as u64);
        line.append(", ");
        line.append(target_if);
        line.append(" has ");
        text::push_decimal(&mut line, target as u64);
        line.append("; packets larger than ");
        text::push_decimal(&mut line, least as u64);
        line.append(" bytes cannot cross toward the smaller side and are dropped");
        lines.push(line);
        assert(text::views(lines@) =~= before.push(line@));
    }
    assert(text::views(lines@) =~= before + mismatch_text(
        name@,
        source_if@,
        source,
        target_if@,
        target,
    ));
}

/// What the log says of an entry's MTUs. For information: an actual oversize drop warns at the send.
pub fn log_mtu_info(reflector: &Reflector, source: Option<u32>, target: Option<u32>) -> (r: Vec<
    String,
>)
    ensures
        text::views(r@) == mtu_texts(reflector@, source, target),
{
    let mut lines: Vec<String> = Vec::new();
    assert(text::views(lines@) =~= Seq::empty());
    if let (Some(source), Some(target)) = (source, target) {
        let name = reflector.name.as_str();
        let source_if = reflector.source_if.as_str();
        let target_if = reflector.target_if.as_str();
        push_ceiling(&mut lines, name, source_if, source);
        push_ceiling(&mut lines, name, target_if, target);
        push_mismatch(&mut lines, name, source_if, source, target_if, target);
        assert(text::views(lines@) =~= mtu_texts(reflector@, Some(source), Some(target)));
    }
    lines
}

/// No interface is opened but one of an entry.
pub proof fn law_no_other_interface_is_opened(entries: Seq<Entry>, name: Seq<char>)
    requires
        interfaces(entries).contains(name),
    ensures
        exists|i: int|
            0 <= i < entries.len() && ((#[trigger] entries[i]).source_if == name
                || entries[i].target_if == name),
    decreases entries.len(),
{
    if entries.len() > 0 {
        let t = entries.drop_last();
        let last = entries.last();
        assert(entries[entries.len() - 1] == last);
        if name != last.source_if && name != last.target_if {
            let before = interfaces(t);
            let mid = with_name(before, last.source_if);
            let all = interfaces(entries);
            let k: int = choose|k: int| 0 <= k < all.len() && all[k] == name;
            assert(k < mid.len() && mid[k] == name);
            assert(k < before.len() && before[k] == name);
            law_no_other_interface_is_opened(t, name);
            let i: int = choose|i: int|
                0 <= i < t.len() && ((#[trigger] t[i]).source_if == name || t[i].target_if == name);
            assert(entries[i] == t[i]);
        }
    }
}

/// Every entry has its own leg, and its reverse where it is bidirectional, and no other.
pub proof fn law_each_entry_has_its_legs(entries: Seq<Entry>, n: nat, leg: Leg)
    requires
        n <= entries.len() <= usize::MAX,
    ensures
        legs_of(entries, n).contains(leg) <==> leg.entry < n && (leg.reversed
            ==> entries[leg.entry as int].bidirectional),
    decreases n,
{
    if n > 0 {
        let before = legs_of(entries, (n - 1) as nat);
        let all = legs_of(entries, n);
        law_each_entry_has_its_legs(entries, (n - 1) as nat, leg);
        let m: int = before.len() as int;
        assert(all[m] == Leg { entry: (n - 1) as usize, reversed: false });
        if entries[n - 1].bidirectional {
            assert(all[m + 1] == Leg { entry: (n - 1) as usize, reversed: true });
        }
        if before.contains(leg) {
            let k: int = choose|k: int| 0 <= k < before.len() && before[k] == leg;
            assert(all[k] == leg);
        }
        if all.contains(leg) {
            let k: int = choose|k: int| 0 <= k < all.len() && all[k] == leg;
            if k < m {
                assert(before[k] == leg);
            }
        }
    }
}

/// The log tells of an interface whose MTU is above the ceiling, and of two whose MTUs differ with one
/// of them within it; of nothing where an MTU is not known.
pub proof fn law_what_is_said_of_mtus(entry: Entry, source: u32, target: u32)
    ensures
        ceiling_text(entry.name, entry.source_if, source).len() == (if source > MAX_MTU {
            1int
        } else {
            0
        }),
        mismatch_text(entry.name, entry.source_if, source, entry.target_if, target).len() == (
        if source != target && (source <= MAX_MTU || target <= MAX_MTU) {
            1int
        } else {
            0
        }),
        mtu_texts(entry, Some(source), Some(source)).len() == (if source > MAX_MTU {
            2int
        } else {
            0
        }),
        mtu_texts(entry, None, Some(target)).len() == 0,
        mtu_texts(entry, Some(source), None).len() == 0,
        smaller(source, target) <= source && smaller(source, target) <= target,
        smaller(source, target) == source || smaller(source, target) == target,
{
}

} // verus!
