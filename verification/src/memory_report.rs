//! Optional memory-footprint diagnostics: what the system's figures say, the text of a report, and
//! when the next one is due. Instants and intervals are in nanoseconds.

use vstd::prelude::*;

use crate::ascii;
use crate::number;
use crate::text;

verus! {

/// The kibibytes of a peak resident set that the system counts in kibibytes, or in bytes; a
/// negative figure reads as 0.
pub open spec fn peak_kib(maxrss: i64, in_bytes: bool) -> u64 {
    let n: int = if maxrss < 0 { 0 } else { maxrss as int };
    if in_bytes {
        (n / 1024) as u64
    } else {
        n as u64
    }
}

/// Peak resident set size in KiB from what `getrusage` reports, or `None` where it failed.
pub fn peak_rss_kib(maxrss: Option<i64>, in_bytes: bool) -> (r: u64)
    ensures
        r == match maxrss {
            Some(n) => peak_kib(n, in_bytes),
            None => 0,
        },
{
    let n: u64 = match maxrss {
        Some(n) => if n < 0 {
            0
        } else {
            n as u64
        },
        None => 0,
    };
    if in_bytes {
        n / 1024
    } else {
        n
    }
}

/// The characters in front of the first white space.
pub open spec fn first_word(s: Seq<char>) -> Seq<char>
    decreases s.len(),
{
    if s.len() == 0 || text::is_space(s[0]) {
        Seq::empty()
    } else {
        seq![s[0]] + first_word(s.skip(1))
    }
}

/// The figure of a `VmRSS:` line: the first word behind the label, where it is a number.
pub open spec fn rss_of_line(line: Seq<char>) -> Option<nat> {
    let label = "VmRSS:"@;
    if label.is_prefix_of(line) {
        match text::narrowed(first_word(text::trimmed_start(line.skip(label.len() as int)))) {
            Some(word) => number::at_most(number::unsigned(word, 10), u64::MAX as nat),
            None => None,
        }
    } else {
        None
    }
}

/// The figure of the first line that has one.
pub open spec fn rss_of_lines(lines: Seq<Seq<char>>) -> Option<nat>
    decreases lines.len(),
{
    if lines.len() == 0 {
        None
    } else {
        match rss_of_line(lines[0]) {
            Some(n) => Some(n),
            None => rss_of_lines(lines.skip(1)),
        }
    }
}

proof fn lemma_first_word(s: Seq<char>, n: int)
    requires
        0 <= n <= s.len(),
        forall|i: int| 0 <= i < n ==> !text::is_space(#[trigger] s[i]),
        n < s.len() ==> text::is_space(s[n]),
    ensures
        first_word(s) == s.take(n),
    decreases n,
{
    if n > 0 {
        let t = s.skip(1);
        assert forall|i: int| 0 <= i < n - 1 implies !text::is_space(#[trigger] t[i]) by {
            assert(t[i] == s[i + 1]);
        }
        lemma_first_word(t, n - 1);
        assert(s.take(n) =~= seq![s[0]] + t.take(n - 1));
    } else {
        assert(s.take(0) =~= Seq::empty());
    }
}

/// The figure of one line.
fn line_rss(line: &[char]) -> (r: Option<u64>)
    ensures
        match r {
            Some(n) => rss_of_line(line@) == Some(n as nat),
            None => rss_of_line(line@) is None,
        },
{
    let label = text::chars("VmRSS:");
    if line.len() < label.len() || !text::same(
        vstd::slice::slice_subrange(line, 0, label.len()),
        &label,
    ) {
        assert(!"VmRSS:"@.is_prefix_of(line@)) by {
            if "VmRSS:"@.is_prefix_of(line@) {
                assert(line@.subrange(0, label@.len() as int) =~= label@);
            }
        }
        return None;
    }
    assert("VmRSS:"@.is_prefix_of(line@)) by {
        assert(line@.subrange(0, label@.len() as int) == label@);
    }
    let rest = vstd::slice::slice_subrange(line, label.len(), line.len());
    assert(rest@ =~= line@.skip(label@.len() as int));
    let mut from: usize = 0;
    assert(rest@.skip(0) =~= rest@);
    while from < rest.len() && text::is_space_char(rest[from])
        invariant
            from <= rest@.len(),
            text::trimmed_start(rest@.skip(from as int)) == text::trimmed_start(rest@),
        decreases rest@.len() - from,
    {
        assert(rest@.skip(from as int).skip(1) =~= rest@.skip(from as int + 1));
        from += 1;
    }
    let ghost start = rest@.skip(from as int);
    assert(text::trimmed_start(rest@) == start);
    let mut to: usize = from;
    while to < rest.len() && !text::is_space_char(rest[to])
        invariant
            from <= to <= rest@.len(),
            start == rest@.skip(from as int),
            forall|i: int| 0 <= i < to - from ==> !text::is_space(#[trigger] start[i]),
        decreases rest@.len() - to,
    {
        assert(start[to - from] == rest@[to as int]);
        to += 1;
    }
    assert(to < rest@.len() ==> start[to - from] == rest@[to as int]);
    proof {
        lemma_first_word(start, to - from);
    }
    let word = vstd::slice::slice_subrange(rest, from, to);
    assert(word@ =~= start.take(to - from));
    match text::narrow(word) {
        Some(bytes) => number::parse_unsigned(&bytes, 10, u64::MAX),
        None => None,
    }
}

/// The current resident set in KiB from the text of `/proc/self/status`, or `None` where it has no
/// such figure.
pub fn current_rss_kib(status: &str) -> (r: Option<u64>)
    ensures
        match r {
            Some(n) => rss_of_lines(text::split(status@, '\n')) == Some(n as nat),
            None => rss_of_lines(text::split(status@, '\n')) is None,
        },
{
    let all = text::chars(status);
    let ghost lines = text::split(status@, '\n');
    let mut rest: &[char] = &all;
    let mut done = false;
    while !done
        invariant
            lines == text::split(status@, '\n'),
            !done ==> rss_of_lines(lines) == rss_of_lines(text::split(rest@, '\n')),
            done ==> rss_of_lines(lines) is None,
        decreases rest@.len(), (if done { 0int } else { 1int }),
    {
        let end: usize = text::find_char(rest, '\n');
        let line = vstd::slice::slice_subrange(rest, 0, end);
        proof {
            text::lemma_split_at(rest@, '\n', end as int);
            assert(line@ =~= rest@.take(end as int));
            if end < rest@.len() {
                let tail = text::split(rest@.skip(end as int + 1), '\n');
                assert((seq![rest@.take(end as int)] + tail).skip(1) =~= tail);
                assert((seq![rest@.take(end as int)] + tail)[0] == line@);
            } else {
                assert(rest@.take(end as int) =~= rest@);
                assert(seq![rest@].skip(1) =~= Seq::empty());
                assert(rss_of_lines(Seq::<Seq<char>>::empty()) is None);
            }
        }
        match line_rss(line) {
            Some(n) => return Some(n),
            None => {},
        }
        if end == rest.len() {
            done = true;
        } else {
            let ghost tail = rest@.skip(end as int + 1);
            rest = vstd::slice::slice_subrange(rest, end + 1, rest.len());
            assert(rest@ =~= tail);
        }
    }
    None
}

/// The current resident set in KiB from a count of pages, or `None` where the reply has not the
/// size of its structure (an ABI mismatch reads as absent rather than as garbage), a figure is
/// negative, or the bytes do not fit 64 bits.
pub fn rss_from_pages(reply_len: usize, expected_len: usize, pages: i64, page: i64) -> (r: Option<
    u64,
>)
    ensures
        r == if reply_len == expected_len && pages >= 0 && page >= 0 && pages * page <= u64::MAX {
            Some((pages * page / 1024) as u64)
        } else {
            None
        },
{
    if reply_len != expected_len || pages < 0 || page < 0 {
        return None;
    }
    proof {
        assert(pages * page >= 0) by (nonlinear_arith)
            requires
                pages >= 0,
                page >= 0,
        ;
    }
    match (pages as u64).checked_mul(page as u64) {
        Some(bytes) => Some(bytes / 1024),
        None => None,
    }
}

/// The current resident set in KiB from one counted in bytes, or `None` where the call failed or
/// filled less than the full structure.
pub fn rss_from_bytes(filled: i32, size: i32, resident: u64) -> (r: Option<u64>)
    ensures
        r == if filled > 0 && filled == size {
            Some((resident / 1024) as u64)
        } else {
            None
        },
{
    if filled <= 0 || filled != size {
        return None;
    }
    Some(resident / 1024)
}

/// Record a reading of the resident set and return the high-water mark including it.
pub fn fold_observed(observed: &mut u64, rss: u64) -> (r: u64)
    ensures
        r == *final(observed),
        *final(observed) == if rss > *old(observed) {
            rss
        } else {
            *old(observed)
        },
{
    if rss > *observed {
        *observed = rss;
    }
    *observed
}

/// The mark after readings from none at all.
pub open spec fn observed_after(readings: Seq<u64>) -> u64
    decreases readings.len(),
{
    if readings.len() == 0 {
        0
    } else {
        let before = observed_after(readings.drop_last());
        if readings.last() > before {
            readings.last()
        } else {
            before
        }
    }
}

/// The mark is no less than any reading, and never goes down.
pub proof fn law_observed_peak_never_decreases(readings: Seq<u64>, n: int)
    requires
        0 <= n <= readings.len(),
    ensures
        observed_after(readings.take(n)) <= observed_after(readings),
        forall|i: int| 0 <= i < readings.len() ==> #[trigger] readings[i] <= observed_after(readings),
    decreases readings.len(),
{
    if readings.len() > 0 {
        let t = readings.drop_last();
        if n < readings.len() {
            law_observed_peak_never_decreases(t, n);
            assert(t.take(n) =~= readings.take(n));
        } else {
            law_observed_peak_never_decreases(t, t.len() as int);
            assert(readings.take(n) =~= readings);
        }
        assert forall|i: int| 0 <= i < readings.len() implies #[trigger] readings[i]
            <= observed_after(readings) by {
            if i < t.len() {
                assert(t[i] == readings[i]);
            }
        }
    }
}

/// The text of a report.
pub open spec fn report_text(rss: Option<u64>, peak: u64) -> Seq<char> {
    match rss {
        Some(rss) => "memory: rss="@ + number::decimal(rss as nat) + " KiB, peak="@
            + number::decimal(peak as nat) + " KiB"@,
        None => "memory: peak="@ + number::decimal(peak as nat) + " KiB (rss unavailable)"@,
    }
}

/// The text of one memory report.
pub fn log_report(rss: Option<u64>, peak: u64) -> (r: String)
    ensures
        r@ == report_text(rss, peak),
{
    match rss {
        Some(rss) => {
            let mut r = "memory: rss=".to_owned();
            text::push_decimal(&mut r, rss);
            r.append(" KiB, peak=");
            text::push_decimal(&mut r, peak);
            r.append(" KiB");
            r
        },
        None => {
            let mut r = "memory: peak=".to_owned();
            text::push_decimal(&mut r, peak);
            r.append(" KiB (rss unavailable)");
            r
        },
    }
}

/// A request to report now.
#[derive(Clone, Copy, PartialEq, Eq, Structural, Debug)]
pub enum ControlEvent {
    Dump,
}

/// When to report: every `interval`, and on a control dump. `interval` is `None` for a dump-only
/// reporter: no periodic timer, but it still dumps on demand.
#[derive(Clone, Copy, PartialEq, Eq, Structural, Debug)]
pub struct MemoryReporter {
    pub interval: Option<u64>,
    /// The next periodic report instant, or `None` when there is no periodic cadence.
    pub next: Option<u64>,
}

/// `interval` after `now`.
pub open spec fn after(interval: Option<u64>, now: u64) -> Option<u64> {
    match interval {
        Some(i) => Some((now + i) as u64),
        None => None,
    }
}

impl MemoryReporter {
    /// There is a deadline exactly where there is an interval.
    pub open spec fn wf(&self) -> bool {
        self.next is Some <==> self.interval is Some
    }

    /// The instant an interval after `now` can be told.
    pub open spec fn fits(interval: Option<u64>, now: u64) -> bool {
        interval matches Some(i) ==> now + i <= u64::MAX
    }

    /// A reporter that reports every `interval` starting `interval` after `now`. When `interval`
    /// is `None`, it reports only on a dump.
    pub fn new(interval: Option<u64>, now: u64) -> (r: Self)
        requires
            Self::fits(interval, now),
        ensures
            r.wf(),
            r.interval == interval,
            r.next == after(interval, now),
    {
        let next: Option<u64> = match interval {
            Some(i) => Some(now + i),
            None => None,
        };
        MemoryReporter { interval, next }
    }

    pub fn next_deadline(&self) -> (r: Option<u64>)
        ensures
            r == self.next,
    {
        self.next
    }

    /// The deadline has come: report, and schedule the next.
    pub fn on_deadline(&mut self, now: u64)
        requires
            Self::fits(old(self).interval, now),
        ensures
            final(self).wf(),
            final(self).interval == old(self).interval,
            final(self).next == after(old(self).interval, now),
    {
        self.next = match self.interval {
            Some(i) => Some(now + i),
            None => None,
        };
    }

    /// Whether the event asks for a report: a dump does. No deadline changes.
    pub fn on_control(&self, event: ControlEvent) -> (r: bool)
        ensures
            r == (event == ControlEvent::Dump),
    {
        match event {
            ControlEvent::Dump => true,
        }
    }
}

/// A figure in bytes is told in whole kibibytes, one in kibibytes as it is, and a negative one as none.
pub proof fn law_a_peak_is_told_in_kibibytes(kib: i64, bytes: i64)
    requires
        0 <= bytes < 1024,
        0 <= kib <= 0x10_0000_0000,
    ensures
        peak_kib(kib, false) == kib,
        peak_kib((kib * 1024 + bytes) as i64, true) == kib,
        peak_kib((-1 - kib) as i64, false) == 0,
        peak_kib((-1 - kib) as i64, true) == 0,
{
}

/// The highest reading is one of the readings.
pub proof fn law_the_observed_peak_was_read(readings: Seq<u64>)
    requires
        readings.len() > 0,
    ensures
        readings.contains(observed_after(readings)) || observed_after(readings) == 0,
    decreases readings.len(),
{
    let t = readings.drop_last();
    if readings.last() > observed_after(t) {
        assert(readings[readings.len() - 1] == readings.last());
    } else if t.len() > 0 {
        law_the_observed_peak_was_read(t);
        if t.contains(observed_after(t)) {
            let k: int = choose|k: int| 0 <= k < t.len() && t[k] == observed_after(t);
            assert(readings[k] == observed_after(readings));
        }
    }
}

/// The next report is an interval later, and there is none without an interval.
pub proof fn law_the_next_report_is_an_interval_later(interval: u64, now: u64)
    requires
        now + interval <= u64::MAX,
    ensures
        after(Some(interval), now) is Some,
        after(Some(interval), now)->0 - now == interval,
        after(None, now) is None,
{
}

/// The resident set is told by the first line with the label and a number behind it, whatever the blanks
/// around the number; a line without the label says nothing.
pub proof fn law_the_resident_set_is_the_labelled_number(
    pad: Seq<char>,
    n: u64,
    unit: Seq<char>,
    other: Seq<char>,
    more: Seq<Seq<char>>,
)
    requires
        forall|i: int| 0 <= i < pad.len() ==> text::is_space(#[trigger] pad[i]),
        unit.len() > 0 ==> text::is_space(unit[0]),
        other.len() > 0 ==> other[0] != 'V',
    ensures
        ({
            let told = "VmRSS:"@ + pad + number::decimal(n as nat) + unit;
            &&& rss_of_line(told) == Some(n as nat)
            &&& rss_of_line(other) is None
            &&& rss_of_lines(seq![told] + more) == Some(n as nat)
            &&& rss_of_lines(seq![other] + more) == rss_of_lines(more)
        }),
{
    reveal_strlit("VmRSS:");
    let label = "VmRSS:"@;
    let digits = number::decimal(n as nat);
    let told = label + pad + digits + unit;
    let behind = pad + (digits + unit);
    assert(label.is_prefix_of(told));
    assert(told.skip(label.len() as int) =~= behind);
    crate::net::ip::lemma_decimal_digits(n as nat);
    number::lemma_written_reads_back(n as nat, 10);
    let bytes = ascii::bytes(digits);
    assert forall|i: int| 0 <= i < digits.len() implies '0' <= #[trigger] digits[i] && digits[i]
        <= '9' by {
        lemma_decimal_chars(n as nat);
    }
    assert((digits + unit)[0] == digits[0]);
    lemma_blanks_are_trimmed(pad, digits + unit);
    assert forall|i: int| 0 <= i < digits.len() implies !text::is_space(
        #[trigger] (digits + unit)[i],
    ) by {
        assert((digits + unit)[i] == digits[i]);
    }
    lemma_first_word(digits + unit, digits.len() as int);
    assert((digits + unit).take(digits.len() as int) =~= digits);
    assert(bytes[0] == digits[0] as u8);
    assert(number::unsigned(bytes, 10) == number::number(bytes, 10));
    if label.is_prefix_of(other) {
        assert(other[0] == label[0]);
    }
    assert((seq![told] + more).skip(1) =~= more);
    assert((seq![other] + more).skip(1) =~= more);
}

proof fn lemma_decimal_chars(n: nat)
    ensures
        forall|i: int|
            0 <= i < number::decimal(n).len() ==> '0' <= #[trigger] number::decimal(n)[i]
                && number::decimal(n)[i] <= '9',
    decreases n,
{
    let w = number::decimal(n);
    if n >= 10 {
        lemma_decimal_chars(n / 10);
        let t = number::decimal(n / 10);
        assert(w == t.push(number::digit_char(n % 10)));
        assert forall|i: int| 0 <= i < w.len() implies '0' <= #[trigger] w[i] && w[i] <= '9' by {
            if i < t.len() {
                assert(w[i] == t[i]);
            }
        }
    }
}

proof fn lemma_blanks_are_trimmed(pad: Seq<char>, s: Seq<char>)
    requires
        forall|i: int| 0 <= i < pad.len() ==> text::is_space(#[trigger] pad[i]),
        s.len() > 0,
        !text::is_space(s[0]),
    ensures
        text::trimmed_start(pad + s) == s,
    decreases pad.len(),
{
    if pad.len() > 0 {
        let t = pad.skip(1);
        assert forall|i: int| 0 <= i < t.len() implies text::is_space(#[trigger] t[i]) by {
            assert(t[i] == pad[i + 1]);
        }
        assert((pad + s)[0] == pad[0]);
        assert((pad + s).skip(1) =~= t + s);
        lemma_blanks_are_trimmed(t, s);
    } else {
        assert(pad + s =~= s);
    }
}

} // verus!
