//! What the framer makes of a message, said of messages as they are written.

use vstd::prelude::*;

use crate::ascii;
use crate::net::http;
use crate::net::http::framing;
use crate::net::http::framing::{
    Advance, AuthorityHeader, Body, Field, FramingError, Kind, RewritePolicy, Scan,
};
use crate::net::ip;
use crate::net::ip::SocketAddrV4;
use crate::number;

verus! {

/// No end of a line inside.
pub open spec fn unbroken(l: Seq<u8>) -> bool {
    forall|i: int| 0 <= i < l.len() - 1 ==> !(#[trigger] l[i] == 13 && l[i + 1] == 10)
}

/// A line that is not blank.
pub open spec fn is_line(l: Seq<u8>) -> bool {
    l.len() > 0 && unbroken(l)
}

/// Each of them is a line that is not blank.
pub open spec fn are_lines(s: Seq<Seq<u8>>) -> bool {
    forall|i: int| 0 <= i < s.len() ==> is_line(#[trigger] s[i])
}

/// Lines, each with its end.
pub open spec fn line_bytes(s: Seq<Seq<u8>>) -> Seq<u8>
    decreases s.len(),
{
    if s.len() == 0 {
        Seq::empty()
    } else {
        s[0] + seq![13u8, 10u8] + line_bytes(s.skip(1))
    }
}

/// A header block: the start line and the fields, each with its end, and a blank line.
pub open spec fn block(start: Seq<u8>, fields: Seq<Seq<u8>>) -> Seq<u8> {
    line_bytes(seq![start] + fields) + seq![13u8, 10u8]
}

/// The same letter in either case, or the same byte.
pub open spec fn same_letter(a: u8, b: u8) -> bool {
    ||| a == b
    ||| 65 <= a <= 90 && b == a + 32
    ||| 65 <= b <= 90 && a == b + 32
}

/// The two are equal but for the case of their letters.
pub open spec fn same_letters(a: Seq<u8>, b: Seq<u8>) -> bool {
    a.len() == b.len() && forall|i: int| 0 <= i < a.len() ==> same_letter(#[trigger] a[i], b[i])
}

/// The line is a field of that name.
pub open spec fn named(line: Seq<u8>, name: Seq<char>) -> bool {
    line.len() > name.len() && same_letters(line.take(name.len() as int), ascii::bytes(name))
        && line[name.len() as int] == 58
}

/// What stands behind the colon of a field of that name.
pub open spec fn value(line: Seq<u8>, name: Seq<char>) -> Seq<u8> {
    line.skip(name.len() as int + 1)
}

/// A blank, a tab, or another white space.
pub open spec fn blank(b: u8) -> bool {
    b == 32 || b == 9 || b == 10 || b == 12 || b == 13
}

/// `core` with blanks around it, and none at its own ends.
pub open spec fn wraps(v: Seq<u8>, i: int, core: Seq<u8>) -> bool {
    &&& 0 <= i && i + core.len() <= v.len()
    &&& v.subrange(i, i + core.len()) == core
    &&& forall|k: int| 0 <= k < i ==> blank(#[trigger] v[k])
    &&& forall|k: int| i + core.len() <= k < v.len() ==> blank(#[trigger] v[k])
    &&& core.len() > 0
    &&& !blank(core[0])
    &&& !blank(core.last())
}

/// The value of a decimal or hexadecimal digit; 16 where the byte is none.
pub open spec fn digit(b: u8) -> int {
    if 48 <= b <= 57 {
        b - 48
    } else if 97 <= b <= 102 {
        b - 87
    } else if 65 <= b <= 70 {
        b - 55
    } else {
        16
    }
}

/// One or more digits of the base.
pub open spec fn is_numeral(s: Seq<u8>, base: int) -> bool {
    s.len() > 0 && forall|i: int| 0 <= i < s.len() ==> digit(#[trigger] s[i]) < base
}

/// The number that digits write.
pub open spec fn numeral(s: Seq<u8>, base: int) -> int
    decreases s.len(),
{
    if s.len() == 0 {
        0
    } else {
        numeral(s.drop_last(), base) * base + digit(s.last())
    }
}

/// The line is a `Content-Length` of `n`.
pub open spec fn says_length(line: Seq<u8>, n: int) -> bool {
    named(line, "content-length"@) && exists|i: int, d: Seq<u8>|
        #[trigger] wraps(value(line, "content-length"@), i, d) && is_numeral(d, 10) && numeral(d, 10)
            == n
}

/// The bytes from `i` to `j` stand between commas or the ends, and hold none.
pub open spec fn is_item(v: Seq<u8>, i: int, j: int) -> bool {
    &&& 0 <= i <= j <= v.len()
    &&& i == 0 || v[i - 1] == 44
    &&& j == v.len() || v[j] == 44
    &&& forall|k: int| i <= k < j ==> #[trigger] v[k] != 44
}

/// The line is a `Transfer-Encoding` that lists `chunked`.
pub open spec fn says_chunked(line: Seq<u8>) -> bool {
    named(line, "transfer-encoding"@) && exists|i: int, j: int, k: int, w: Seq<u8>|
        is_item(value(line, "transfer-encoding"@), i, j) && #[trigger] wraps(
            value(line, "transfer-encoding"@).subrange(i, j),
            k,
            w,
        ) && same_letters(w, ascii::bytes("chunked"@))
}

proof fn lemma_same_letter(a: u8, b: u8)
    ensures
        same_letter(a, b) <==> ascii::lower(a) == ascii::lower(b),
{
}

pub proof fn lemma_same_letters(a: Seq<u8>, b: Seq<u8>)
    ensures
        same_letters(a, b) <==> ascii::folded(a) == ascii::folded(b),
{
    if ascii::folded(a) == ascii::folded(b) {
        assert(ascii::folded(a).len() == a.len() && ascii::folded(b).len() == b.len());
        assert forall|i: int| 0 <= i < a.len() implies same_letter(#[trigger] a[i], b[i]) by {
            assert(ascii::folded(a)[i] == ascii::folded(b)[i]);
            lemma_same_letter(a[i], b[i]);
        }
    }
    if same_letters(a, b) {
        assert forall|i: int| 0 <= i < a.len() implies ascii::folded(a)[i] == ascii::folded(
            b,
        )[i] by {
            assert(same_letter(a[i], b[i]));
            lemma_same_letter(a[i], b[i]);
        }
        assert(ascii::folded(a) =~= ascii::folded(b));
    }
}

/// A field of a name is what starts with the name and a colon, in letters of either case.
proof fn lemma_named(line: Seq<u8>, name: Seq<char>, prefix: Seq<u8>)
    requires
        prefix.len() == name.len() + 1,
        same_letters(prefix.take(name.len() as int), ascii::bytes(name)),
        prefix[name.len() as int] == 58,
    ensures
        named(line, name) <==> ascii::after_prefix(line, prefix) is Some,
        named(line, name) ==> ascii::after_prefix(line, prefix) == Some(value(line, name)),
{
    let n: int = name.len() as int;
    let front = line.take(n + 1);
    lemma_same_letters(front, prefix);
    if line.len() >= prefix.len() {
        assert(line.take(n) =~= front.take(n));
        if named(line, name) {
            assert forall|i: int| 0 <= i < front.len() implies same_letter(
                #[trigger] front[i],
                prefix[i],
            ) by {
                if i < n {
                    assert(same_letter(line.take(n)[i], ascii::bytes(name)[i]));
                    assert(same_letter(prefix.take(n)[i], ascii::bytes(name)[i]));
                    lemma_same_letter(front[i], ascii::bytes(name)[i]);
                    lemma_same_letter(prefix[i], ascii::bytes(name)[i]);
                    lemma_same_letter(front[i], prefix[i]);
                }
            }
        }
        if same_letters(front, prefix) {
            assert(same_letter(front[n], prefix[n]));
            assert forall|i: int| 0 <= i < n implies same_letter(
                #[trigger] line.take(n)[i],
                ascii::bytes(name)[i],
            ) by {
                assert(same_letter(front[i], prefix[i]));
                assert(same_letter(prefix.take(n)[i], ascii::bytes(name)[i]));
                lemma_same_letter(front[i], prefix[i]);
                lemma_same_letter(prefix[i], ascii::bytes(name)[i]);
                lemma_same_letter(front[i], ascii::bytes(name)[i]);
            }
        }
    }
}

proof fn lemma_wrapped_end(s: Seq<u8>, core: Seq<u8>)
    requires
        core.len() <= s.len(),
        s.take(core.len() as int) == core,
        forall|k: int| core.len() <= k < s.len() ==> blank(#[trigger] s[k]),
        core.len() > 0,
        !blank(core.last()),
    ensures
        ascii::trimmed_end(s) == core,
    decreases s.len(),
{
    if s.len() > core.len() {
        let t = s.drop_last();
        assert(blank(s[s.len() - 1]));
        assert(t.take(core.len() as int) =~= core);
        assert forall|k: int| core.len() <= k < t.len() implies blank(#[trigger] t[k]) by {
            assert(t[k] == s[k]);
        }
        lemma_wrapped_end(t, core);
    } else {
        assert(s =~= core);
    }
}

pub proof fn lemma_wrapped(v: Seq<u8>, i: int, core: Seq<u8>)
    requires
        wraps(v, i, core),
    ensures
        ascii::trimmed(v) == core,
    decreases i,
{
    if i > 0 {
        let t = v.skip(1);
        assert(blank(v[0]));
        assert(t.subrange(i - 1, i - 1 + core.len()) =~= core);
        assert forall|k: int| 0 <= k < i - 1 implies blank(#[trigger] t[k]) by {
            assert(t[k] == v[k + 1]);
        }
        assert forall|k: int| i - 1 + core.len() <= k < t.len() implies blank(#[trigger] t[k]) by {
            assert(t[k] == v[k + 1]);
        }
        lemma_wrapped(t, i - 1, core);
    } else {
        assert(v[0] == v.subrange(0, core.len() as int)[0]);
        assert(v.take(core.len() as int) =~= core);
        lemma_wrapped_end(v, core);
    }
}

proof fn lemma_trimmed_end(s: Seq<u8>)
    ensures
        ascii::trimmed_end(s).len() <= s.len(),
        ascii::trimmed_end(s) == s.take(ascii::trimmed_end(s).len() as int),
        forall|k: int| ascii::trimmed_end(s).len() <= k < s.len() ==> blank(#[trigger] s[k]),
        ascii::trimmed_end(s).len() > 0 ==> !blank(ascii::trimmed_end(s).last()),
    decreases s.len(),
{
    if s.len() > 0 && ascii::is_space(s.last()) {
        let t = s.drop_last();
        lemma_trimmed_end(t);
        assert(ascii::trimmed_end(s) =~= s.take(ascii::trimmed_end(s).len() as int));
        assert forall|k: int| ascii::trimmed_end(s).len() <= k < s.len() implies blank(
            #[trigger] s[k],
        ) by {
            if k < t.len() {
                assert(s[k] == t[k]);
            }
        }
    } else {
        assert(s.take(s.len() as int) =~= s);
    }
}

/// What trimming leaves is what the blanks wrap.
pub proof fn lemma_trimmed(v: Seq<u8>)
    ensures
        ascii::trimmed(v).len() > 0 ==> exists|i: int| #[trigger] wraps(v, i, ascii::trimmed(v)),
{
    let core = ascii::trimmed(v);
    if core.len() > 0 {
        let t = ascii::trimmed_start(v);
        ascii::lemma_trimmed_start(v);
        lemma_trimmed_end(t);
        let i: int = v.len() - t.len();
        assert(v.subrange(i, i + core.len()) =~= core);
        assert(core[0] == t[0]);
        assert forall|k: int| i + core.len() <= k < v.len() implies blank(#[trigger] v[k]) by {
            assert(v[k] == t[k - i]);
        }
        assert(wraps(v, i, core));
    }
}

pub proof fn lemma_numeral(s: Seq<u8>, base: int)
    requires
        base == 10 || base == 16,
    ensures
        number::number(s, base as nat) is Some <==> is_numeral(s, base),
        is_numeral(s, base) ==> number::number(s, base as nat) == Some(numeral(s, base) as nat)
            && numeral(s, base) >= 0 && !blank(s[0]) && !blank(s.last()),
{
    lemma_digits(s, base);
    if is_numeral(s, base) {
        assert(digit(s[0]) < base);
        assert(digit(s[s.len() - 1]) < base);
    }
}

pub proof fn lemma_digits(s: Seq<u8>, base: int)
    requires
        base == 10 || base == 16,
    ensures
        number::digits(s, base as nat) is Some <==> forall|i: int|
            0 <= i < s.len() ==> digit(#[trigger] s[i]) < base,
        number::digits(s, base as nat) is Some ==> number::digits(s, base as nat) == Some(
            numeral(s, base) as nat,
        ) && numeral(s, base) >= 0,
    decreases s.len(),
{
    if s.len() > 0 {
        let t = s.drop_last();
        lemma_digits(t, base);
        assert(s.last() == s[s.len() - 1]);
        if forall|i: int| 0 <= i < t.len() ==> digit(#[trigger] t[i]) < base {
            assert forall|i: int| 0 <= i < s.len() && digit(s.last()) < base implies digit(
                #[trigger] s[i],
            ) < base by {
                if i < t.len() {
                    assert(s[i] == t[i]);
                }
            }
        }
        if forall|i: int| 0 <= i < s.len() ==> digit(#[trigger] s[i]) < base {
            assert forall|i: int| 0 <= i < t.len() implies digit(#[trigger] t[i]) < base by {
                assert(s[i] == t[i]);
            }
        }
        if number::digits(s, base as nat) is Some {
            let high: int = numeral(t, base);
            assert(high * base >= 0) by (nonlinear_arith)
                requires
                    high >= 0,
                    base >= 0,
            ;
        }
    }
}

/// A length line is one whose value is a number.
proof fn lemma_length_line(line: Seq<u8>, n: int)
    ensures
        says_length(line, n) && n <= usize::MAX <==> named(line, "content-length"@)
            && framing::content_length(value(line, "content-length"@)) == Some(n as nat) && n >= 0,
{
    let v = value(line, "content-length"@);
    let core = ascii::trimmed(v);
    if says_length(line, n) {
        let (i, d): (int, Seq<u8>) = choose|i: int, d: Seq<u8>|
            #[trigger] wraps(v, i, d) && is_numeral(d, 10) && numeral(d, 10) == n;
        lemma_wrapped(v, i, d);
        lemma_numeral(d, 10);
    }
    if framing::content_length(v) is Some {
        lemma_numeral(core, 10);
        lemma_trimmed(v);
        let i: int = choose|i: int| #[trigger] wraps(v, i, core);
        assert(wraps(v, i, core) && is_numeral(core, 10));
    }
}

/// The list up to its first comma, and what is behind that.
proof fn lemma_first_item(v: Seq<u8>) -> (n: int)
    ensures
        0 <= n <= v.len(),
        forall|k: int| 0 <= k < n ==> #[trigger] v[k] != 44,
        n < v.len() ==> v[n] == 44,
        ascii::fields(v, 44) == if n < v.len() {
            seq![v.take(n)] + ascii::fields(v.skip(n + 1), 44)
        } else {
            seq![v]
        },
{
    let n: int = ascii::run_until(v, ascii::only(44)) as int;
    ascii::lemma_run_until(v, ascii::only(44));
    assert forall|k: int| 0 <= k < n implies #[trigger] v[k] != 44 by {
        assert(!ascii::only(44)(v[k]));
    }
    n
}

/// Every item between commas is a field of the list.
proof fn lemma_item_is_field(v: Seq<u8>, i: int, j: int) -> (k: int)
    requires
        is_item(v, i, j),
    ensures
        0 <= k < ascii::fields(v, 44).len(),
        ascii::fields(v, 44)[k] == v.subrange(i, j),
    decreases v.len(),
{
    let n = lemma_first_item(v);
    if i <= n {
        if i > 0 {
            assert(v[i - 1] != 44);
        }
        if j < n {
            assert(v[j] != 44);
        }
        if j > n {
            assert(v[n] != 44);
        }
        if n < v.len() {
            assert(v.take(n) =~= v.subrange(i, j));
        } else {
            assert(v =~= v.subrange(i, j));
        }
        0
    } else {
        let t = v.skip(n + 1);
        assert forall|k: int| i - n - 1 <= k < j - n - 1 implies #[trigger] t[k] != 44 by {
            assert(t[k] == v[k + n + 1]);
        }
        let k = lemma_item_is_field(t, i - n - 1, j - n - 1);
        assert(t.subrange(i - n - 1, j - n - 1) =~= v.subrange(i, j));
        k + 1
    }
}

/// Every field of the list is an item between commas.
proof fn lemma_field_is_item(v: Seq<u8>, k: int) -> (r: (int, int))
    requires
        0 <= k < ascii::fields(v, 44).len(),
    ensures
        is_item(v, r.0, r.1),
        ascii::fields(v, 44)[k] == v.subrange(r.0, r.1),
    decreases v.len(),
{
    let n = lemma_first_item(v);
    if k == 0 {
        if n < v.len() {
            assert(v.take(n) =~= v.subrange(0, n));
        } else {
            assert(v =~= v.subrange(0, n));
        }
        (0, n)
    } else {
        let t = v.skip(n + 1);
        let (i, j) = lemma_field_is_item(t, k - 1);
        assert forall|m: int| i + n + 1 <= m < j + n + 1 implies #[trigger] v[m] != 44 by {
            assert(v[m] == t[m - n - 1]);
        }
        if i > 0 {
            assert(t[i - 1] == v[i + n]);
        }
        if j < t.len() {
            assert(t[j] == v[j + n + 1]);
        }
        assert(t.subrange(i, j) =~= v.subrange(i + n + 1, j + n + 1));
        (i + n + 1, j + n + 1)
    }
}

/// A coding line is one whose list names `chunked`.
proof fn lemma_coding_line(line: Seq<u8>)
    ensures
        says_chunked(line) <==> named(line, "transfer-encoding"@) && framing::has_chunked(
            value(line, "transfer-encoding"@),
        ),
{
    let v = value(line, "transfer-encoding"@);
    if says_chunked(line) {
        lemma_chunked_item(v);
    }
    if named(line, "transfer-encoding"@) && framing::has_chunked(v) {
        let (i, j, k, w) = lemma_chunked_field(v);
        assert(is_item(v, i, j) && wraps(v.subrange(i, j), k, w) && same_letters(
            w,
            ascii::bytes("chunked"@),
        ));
    }
}

proof fn lemma_chunked_item(v: Seq<u8>)
    requires
        exists|i: int, j: int, k: int, w: Seq<u8>|
            is_item(v, i, j) && #[trigger] wraps(v.subrange(i, j), k, w) && same_letters(
                w,
                ascii::bytes("chunked"@),
            ),
    ensures
        framing::has_chunked(v),
{
    let word = ascii::bytes("chunked"@);
    let (i, j, k, w): (int, int, int, Seq<u8>) = choose|i: int, j: int, k: int, w: Seq<u8>|
        is_item(v, i, j) && #[trigger] wraps(v.subrange(i, j), k, w) && same_letters(w, word);
    lemma_wrapped(v.subrange(i, j), k, w);
    lemma_same_letters(w, word);
    let m = lemma_item_is_field(v, i, j);
    assert(ascii::folded(ascii::trimmed(ascii::fields(v, ',' as u8)[m])) == ascii::folded(word));
}

proof fn lemma_chunked_field(v: Seq<u8>) -> (r: (int, int, int, Seq<u8>))
    requires
        framing::has_chunked(v),
    ensures
        is_item(v, r.0, r.1),
        wraps(v.subrange(r.0, r.1), r.2, r.3),
        same_letters(r.3, ascii::bytes("chunked"@)),
{
    let word = ascii::bytes("chunked"@);
    reveal_strlit("chunked");
    let f = ascii::fields(v, ',' as u8);
    let m: int = choose|m: int|
        0 <= m < f.len() && ascii::folded(ascii::trimmed(#[trigger] f[m])) == ascii::folded(word);
    let (i, j) = lemma_field_is_item(v, m);
    let w = ascii::trimmed(f[m]);
    lemma_same_letters(w, word);
    assert(w.len() == 7);
    lemma_trimmed(f[m]);
    let k: int = choose|k: int| #[trigger] wraps(f[m], k, w);
    (i, j, k, w)
}

/// The first occurrence is where it occurs and nowhere before.
proof fn lemma_first(s: Seq<u8>, pat: Seq<u8>, n: int)
    requires
        0 <= n,
        n + pat.len() <= s.len(),
        s.subrange(n, n + pat.len()) == pat,
        forall|j: int| 0 <= j < n ==> #[trigger] s.subrange(j, j + pat.len()) != pat,
    ensures
        ascii::find(s, pat) == Some(n),
{
    ascii::lemma_find(s, pat);
    if let Some(i) = ascii::find(s, pat) {
        if i < n {
            assert(s.subrange(i, i + pat.len()) != pat);
        }
        if n < i {
            assert(s.subrange(n, n + pat.len()) != pat);
        }
    }
}

/// The end of an unbroken line is the first end of a line.
proof fn lemma_line_end(l: Seq<u8>, rest: Seq<u8>)
    requires
        unbroken(l),
    ensures
        ascii::find(l + seq![13u8, 10u8] + rest, framing::crlf()) == Some(l.len() as int),
{
    let s = l + seq![13u8, 10u8] + rest;
    let pat = framing::crlf();
    let n: int = l.len() as int;
    assert(s.subrange(n, n + 2) =~= pat);
    assert forall|j: int| 0 <= j < n implies #[trigger] s.subrange(j, j + pat.len()) != pat by {
        if s.subrange(j, j + pat.len()) == pat {
            assert(s.subrange(j, j + 2)[0] == s[j] && s.subrange(j, j + 2)[1] == s[j + 1]);
            if j < n - 1 {
                assert(!(l[j] == 13 && l[j + 1] == 10));
            }
        }
    }
    lemma_first(s, pat, n);
}

/// The blank line behind lines that are not blank is the first.
proof fn lemma_blank_line(s: Seq<Seq<u8>>, more: Seq<u8>)
    requires
        s.len() > 0,
        are_lines(s),
    ensures
        ascii::find(line_bytes(s) + seq![13u8, 10u8] + more, framing::header_terminator()) == Some(
            line_bytes(s).len() - 2,
        ),
        line_bytes(s).len() >= 3,
    decreases s.len(),
{
    let all = line_bytes(s) + seq![13u8, 10u8] + more;
    let pat = framing::header_terminator();
    let l = s[0];
    assert(is_line(l));
    let n: int = l.len() as int;
    let rest = s.skip(1);
    let tail = line_bytes(rest) + seq![13u8, 10u8] + more;
    assert(all =~= l + seq![13u8, 10u8] + tail);
    assert forall|j: int| 0 <= j < n implies #[trigger] all.subrange(j, j + pat.len()) != pat by {
        if all.subrange(j, j + pat.len()) == pat {
            let t = all.subrange(j, j + 4);
            assert(t[0] == all[j] && t[1] == all[j + 1]);
            if j < n - 1 {
                assert(!(l[j] == 13 && l[j + 1] == 10));
            }
        }
    }
    if rest.len() == 0 {
        assert(line_bytes(rest) =~= Seq::<u8>::empty());
        assert(all.subrange(n, n + 4) =~= pat);
        lemma_first(all, pat, n);
    } else {
        assert forall|i: int| 0 <= i < rest.len() implies is_line(#[trigger] rest[i]) by {
            assert(rest[i] == s[i + 1]);
        }
        lemma_blank_line(rest, more);
        let m: int = line_bytes(rest).len() - 2;
        ascii::lemma_find(tail, pat);
        assert(all.subrange(n + 2 + m, n + 2 + m + 4) =~= tail.subrange(m, m + 4));
        assert forall|j: int| 0 <= j < n + 2 + m implies #[trigger] all.subrange(j, j + pat.len())
            != pat by {
            if j >= n + 2 {
                assert(all.subrange(j, j + 4) =~= tail.subrange(j - n - 2, j - n - 2 + 4));
                assert(tail.subrange(j - n - 2, j - n - 2 + pat.len()) != pat);
            } else if j >= n {
                let t = all.subrange(j, j + 4);
                if t == pat {
                    assert(t[0] == all[j] && t[2] == all[j + 2] && t[3] == all[j + 3]);
                    let next = rest[0];
                    assert(is_line(next));
                    assert(tail =~= next + (seq![13u8, 10u8] + line_bytes(rest.skip(1)) + seq![
                        13u8,
                        10u8,
                    ] + more));
                    assert(all[n + 2] == next[0]);
                    if next.len() > 1 {
                        assert(all[n + 3] == next[1]);
                        assert(!(next[0] == 13 && next[1] == 10));
                    } else {
                        assert(all[n + 3] == 13);
                    }
                }
            }
        }
        lemma_first(all, pat, n + 2 + m);
    }
}

/// Lines are read back as they were written.
proof fn lemma_lines(s: Seq<Seq<u8>>, more: Seq<u8>)
    requires
        forall|i: int| 0 <= i < s.len() ==> unbroken(#[trigger] s[i]),
    ensures
        framing::lines(line_bytes(s) + more) == s + framing::lines(more),
    decreases s.len(),
{
    let all = line_bytes(s) + more;
    if s.len() > 0 {
        let rest = s.skip(1);
        assert forall|i: int| 0 <= i < rest.len() implies unbroken(#[trigger] rest[i]) by {
            assert(rest[i] == s[i + 1]);
        }
        assert(unbroken(s[0]));
        let tail = line_bytes(rest) + more;
        let n: int = s[0].len() as int;
        lemma_line_end(s[0], tail);
        assert(all =~= s[0] + seq![13u8, 10u8] + tail);
        lemma_lines(rest, more);
        assert(all.take(n) =~= s[0]);
        assert(all.skip(n + 2) =~= tail);
        assert(framing::lines(all) =~= s + framing::lines(more));
    } else {
        assert(all =~= more);
        assert(s + framing::lines(more) =~= framing::lines(more));
    }
}

/// A header block with anything behind it: where it ends, and its lines.
proof fn lemma_block(start: Seq<u8>, fields: Seq<Seq<u8>>, more: Seq<u8>)
    requires
        is_line(start),
        are_lines(fields),
    ensures
        framing::blank_run(block(start, fields) + more) == 0,
        framing::header_end(block(start, fields) + more) == Some(block(start, fields).len() as int),
        framing::lines(block(start, fields)) == (seq![start] + fields).push(Seq::<u8>::empty()),
        block(start, fields).len() >= 5,
{
    let s = seq![start] + fields;
    let b = block(start, fields);
    assert forall|i: int| 0 <= i < s.len() implies is_line(#[trigger] s[i]) by {
        if i > 0 {
            assert(s[i] == fields[i - 1]);
        }
    }
    lemma_blank_line(s, more);
    assert(b + more =~= line_bytes(s) + seq![13u8, 10u8] + more);
    let end = Seq::<u8>::empty();
    let last = seq![end];
    lemma_lines(s, seq![13u8, 10u8]);
    lemma_line_end(end, end);
    assert(end + seq![13u8, 10u8] + end =~= seq![13u8, 10u8]);
    assert(seq![13u8, 10u8].skip(2) =~= end);
    assert(seq![13u8, 10u8].take(0) =~= end);
    assert(framing::lines(end) =~= Seq::<Seq<u8>>::empty());
    assert(framing::lines(seq![13u8, 10u8]) =~= last);
    assert(s + last =~= s.push(end));
    assert(s.skip(1) =~= fields);
    assert(s[0] == start);
    assert(b[0] == start[0]);
    if start.len() > 1 {
        assert(b[1] == start[1]);
        assert(!(start[0] == 13 && start[1] == 10));
    } else {
        assert(b[1] == 13);
    }
    if framing::crlf().is_prefix_of(b + more) {
        assert(framing::crlf()[0] == (b + more)[0] && framing::crlf()[1] == (b + more)[1]);
    }
}

/// Some field is a length.
pub open spec fn has_length(fields: Seq<Seq<u8>>) -> bool {
    exists|i: int| 0 <= i < fields.len() && named(#[trigger] fields[i], "content-length"@)
}

/// Every field that is a length is one of `n`.
pub open spec fn length_of(fields: Seq<Seq<u8>>, n: int) -> bool {
    forall|i: int|
        0 <= i < fields.len() ==> (named(#[trigger] fields[i], "content-length"@) ==> says_length(
            fields[i],
            n,
        ))
}

/// Some field lists the chunked coding.
pub open spec fn has_chunked(fields: Seq<Seq<u8>>) -> bool {
    exists|i: int| 0 <= i < fields.len() && says_chunked(#[trigger] fields[i])
}

/// What one line says of the body.
proof fn lemma_field(line: Seq<u8>, kind: Kind, n: int)
    requires
        n <= usize::MAX,
    ensures
        named(line, "content-length"@) ==> framing::field(line, kind) is Length,
        says_length(line, n) ==> framing::field(line, kind) == Field::Length(Some(n as usize)) && n
            >= 0,
        framing::field(line, kind) == Field::Length(Some(n as usize)) && n >= 0 ==> says_length(
            line,
            n,
        ),
        says_chunked(line) <==> framing::field(line, kind) == Field::Coding(true),
        framing::field(line, kind) is Length ==> named(line, "content-length"@),
{
    reveal_strlit("content-length");
    reveal_strlit("Content-Length:");
    reveal_strlit("transfer-encoding");
    reveal_strlit("Transfer-Encoding:");
    let a = ascii::bytes("Content-Length:"@);
    let b = ascii::bytes("Transfer-Encoding:"@);
    assert(same_letters(a.take(14), ascii::bytes("content-length"@)));
    assert(same_letters(b.take(17), ascii::bytes("transfer-encoding"@)));
    lemma_named(line, "content-length"@, a);
    lemma_named(line, "transfer-encoding"@, b);
    lemma_length_line(line, n);
    lemma_coding_line(line);
    if named(line, "content-length"@) && named(line, "transfer-encoding"@) {
        assert(same_letter(line.take(14)[0], ascii::bytes("content-length"@)[0]));
        assert(same_letter(line.take(17)[0], ascii::bytes("transfer-encoding"@)[0]));
    }
}

/// What the fields together say of the body, where their lengths agree.
proof fn lemma_scan(start: Seq<u8>, fields: Seq<Seq<u8>>, kind: Kind, n: int)
    requires
        length_of(fields, n),
        0 <= n <= usize::MAX,
    ensures
        framing::scan_lines(seq![start] + fields, kind) matches Ok(scan) && scan.length == (
        if has_length(fields) {
            Some(n as usize)
        } else {
            None
        }) && scan.chunked == has_chunked(fields),
    decreases fields.len(),
{
    let all = seq![start] + fields;
    if fields.len() > 0 {
        let t = fields.drop_last();
        let l = fields.last();
        assert(fields[fields.len() - 1] == l);
        assert forall|i: int| 0 <= i < t.len() implies fields[i] == #[trigger] t[i] by {}
        assert forall|i: int| 0 <= i < t.len() implies t[i] == #[trigger] fields[i] by {}
        lemma_scan(start, t, kind, n);
        lemma_field(l, kind, n);
        assert(all.drop_last() =~= seq![start] + t);
        assert(all.last() == l);
        if named(l, "content-length"@) {
            assert(says_length(l, n));
        }
        if has_length(fields) && !named(l, "content-length"@) {
            let i: int = choose|i: int|
                0 <= i < fields.len() && named(#[trigger] fields[i], "content-length"@);
            assert(named(t[i], "content-length"@));
        }
        if has_length(t) {
            let i: int = choose|i: int| 0 <= i < t.len() && named(#[trigger] t[i], "content-length"@);
            assert(named(fields[i], "content-length"@));
        }
        if has_chunked(fields) && !says_chunked(l) {
            let i: int = choose|i: int| 0 <= i < fields.len() && says_chunked(#[trigger] fields[i]);
            assert(says_chunked(t[i]));
        }
        if has_chunked(t) {
            let i: int = choose|i: int| 0 <= i < t.len() && says_chunked(#[trigger] t[i]);
            assert(says_chunked(fields[i]));
        }
    } else {
        assert(all =~= seq![start]);
    }
}

/// The blank line adds nothing.
proof fn lemma_scan_blank(ls: Seq<Seq<u8>>, kind: Kind)
    requires
        ls.len() > 0,
    ensures
        framing::scan_lines(ls.push(Seq::<u8>::empty()), kind) == framing::scan_lines(ls, kind),
{
    let end = Seq::<u8>::empty();
    let all = ls.push(end);
    reveal_strlit("Content-Length:");
    reveal_strlit("Transfer-Encoding:");
    reveal_strlit("Host:");
    reveal_strlit("Application-URL:");
    reveal_strlit("Location:");
    assert(all.drop_last() =~= ls);
    assert(all.last() == end);
    assert(framing::field(end, kind) is Other);
}

/// The start line asks for a `HEAD`.
pub open spec fn asks_head(start: Seq<u8>) -> bool {
    start.len() >= 5 && start[0] == 72 && start[1] == 69 && start[2] == 65 && start[3] == 68
        && start[4] == 32
}

proof fn lemma_head(start: Seq<u8>)
    ensures
        asks_head(start) <==> ascii::bytes("HEAD "@).is_prefix_of(start),
{
    reveal_strlit("HEAD ");
    let h = ascii::bytes("HEAD "@);
    assert(h.len() == 5);
    assert(h[0] == 72 && h[1] == 69 && h[2] == 65 && h[3] == 68 && h[4] == 32);
    if asks_head(start) {
        assert(h =~= start.subrange(0, 5));
    }
    if h.is_prefix_of(start) {
        assert(start.subrange(0, 5)[0] == h[0] && start.subrange(0, 5)[1] == h[1] && start.subrange(
            0,
            5,
        )[2] == h[2] && start.subrange(0, 5)[3] == h[3] && start.subrange(0, 5)[4] == h[4]);
    }
}

/// The second field of the start line, between blanks, is the number `code`.
pub open spec fn says_status(start: Seq<u8>, code: int) -> bool {
    exists|i: int, j: int|
        0 <= i < j <= start.len() && start[i] == 32 && (forall|k: int|
            0 <= k < i ==> #[trigger] start[k] != 32) && (j == start.len() || start[j] == 32)
            && is_numeral(#[trigger] start.subrange(i + 1, j), 10) && numeral(
            start.subrange(i + 1, j),
            10,
        ) == code
}

/// A response of this status has no body.
pub open spec fn has_no_body(code: int) -> bool {
    100 <= code < 200 || code == 204 || code == 304
}

proof fn lemma_status(start: Seq<u8>, code: int)
    requires
        says_status(start, code),
        code <= 0xffff,
    ensures
        framing::status_code(start) == code,
        code >= 0,
{
    let (i, j): (int, int) = choose|i: int, j: int|
        0 <= i < j <= start.len() && start[i] == 32 && (forall|k: int|
            0 <= k < i ==> #[trigger] start[k] != 32) && (j == start.len() || start[j] == 32)
            && is_numeral(#[trigger] start.subrange(i + 1, j), 10) && numeral(
            start.subrange(i + 1, j),
            10,
        ) == code;
    let d = start.subrange(i + 1, j);
    let sep = ascii::only(32);
    assert forall|k: int| 0 <= k < i implies !sep(#[trigger] start[k]) by {}
    ascii::lemma_run_until_is(start, sep, i);
    let t = start.skip(i + 1);
    assert forall|k: int| 0 <= k < j - i - 1 implies !sep(#[trigger] t[k]) by {
        assert(t[k] == d[k]);
        assert(digit(d[k]) < 10);
    }
    ascii::lemma_run_until_is(t, sep, j - i - 1);
    assert(t.take(j - i - 1) =~= d);
    let f = ascii::fields(start, 32);
    let g = ascii::fields(t, 32);
    assert(f =~= seq![start.take(i)] + g);
    if j < start.len() {
        assert(g[0] == d);
    } else {
        assert(t =~= d);
        assert(g[0] == d);
    }
    assert(f[1] == d);
    lemma_numeral(d, 10);
    assert(digit(d[0]) < 10);
    assert(d[0] != 43);
}

/// The start line is one that the framer takes: no `HEAD`; and a response's names its status.
pub open spec fn starts(kind: Kind, start: Seq<u8>, code: int) -> bool {
    match kind {
        Kind::Request => !asks_head(start),
        Kind::Response => says_status(start, code) && code <= 0xffff,
    }
}

/// The header block of a message, and what its fields say, behind which `more` follows.
proof fn lemma_fed(
    kind: Kind,
    policy: RewritePolicy,
    start: Seq<u8>,
    fields: Seq<Seq<u8>>,
    code: int,
    n: int,
    more: Seq<u8>,
    all: Seq<u8>,
)
    requires
        is_line(start),
        are_lines(fields),
        block(start, fields).len() <= 2048,
        starts(kind, start, code),
        length_of(fields, n),
        0 <= n <= usize::MAX,
        !(has_length(fields) && has_chunked(fields)),
        all == block(start, fields) + more,
    ensures
        kind is Response ==> code >= 0,
        ({
            let b = block(start, fields);
            let after = framing::body_after(
                kind,
                if kind is Response {
                    code as u16
                } else {
                    0
                },
                if has_length(fields) {
                    Some(n as usize)
                } else {
                    None
                },
                has_chunked(fields),
            );
            let f = framing::fed(kind, policy, Body::Ended, all);
            &&& framing::scan_block(b, kind) is Ok
            &&& f == framing::feed_body(
                framing::rewritten_block(framing::lines(b), kind, policy),
                (framing::scan_block(b, kind)->Ok_0).application_url,
                b.len() as int,
                after,
                more,
            )
        }),
{
    let b = block(start, fields);
    lemma_block(start, fields, more);
    assert(all.skip(0) =~= all);
    assert(all.take(b.len() as int) =~= b);
    assert(all.skip(b.len() as int) =~= more);
    let ls = seq![start] + fields;
    assert(ls.push(Seq::<u8>::empty())[0] == start);
    lemma_head(start);
    lemma_scan(start, fields, kind, n);
    lemma_scan_blank(ls, kind);
    if kind is Response {
        lemma_status(start, code);
    }
}

/// A message whose fields give its length and list no chunked coding has the body of that length: for a
/// request and, but where its status rules one out, for a response.
#[verifier::spinoff_prover]
#[verifier::rlimit(60)]
pub proof fn law_a_length_delimits_the_body(
    kind: Kind,
    policy: RewritePolicy,
    start: Seq<u8>,
    fields: Seq<Seq<u8>>,
    code: int,
    body: Seq<u8>,
    more: Seq<u8>,
)
    requires
        is_line(start),
        are_lines(fields),
        block(start, fields).len() <= 2048,
        starts(kind, start, code),
        kind is Response ==> !has_no_body(code),
        has_length(fields),
        length_of(fields, body.len() as int),
        !has_chunked(fields),
        body.len() <= usize::MAX,
    ensures
        ({
            let b = block(start, fields);
            let f = framing::fed(kind, policy, Body::Ended, b + body + more);
            &&& f.error is None
            &&& f.body == body
            &&& f.consumed == b.len() + body.len()
            &&& f.rest is Ended
        }),
{
    let b = block(start, fields);
    let all = b + body + more;
    assert(all =~= b + (body + more));
    lemma_fed(kind, policy, start, fields, code, body.len() as int, body + more, all);
    lemma_length_body(body, more);
}

proof fn lemma_length_body(body: Seq<u8>, more: Seq<u8>)
    ensures
        ({
            let left = if body.len() == 0 {
                Body::Ended
            } else {
                Body::Length(body.len())
            };
            let a = framing::advance(left, body + more);
            &&& a.error is None && a.body is Ended && a.taken == body.len()
            &&& (body + more).take(a.taken) == body
        }),
{
    assert((body + more).take(body.len() as int) =~= body);
}

/// A chunk: the digits of its size, an extension, and its data.
pub struct Chunk {
    pub size: Seq<u8>,
    pub extension: Seq<u8>,
    pub data: Seq<u8>,
}

impl Chunk {
    /// The digits give the size of the data, and an extension starts with a semicolon.
    pub open spec fn wf(self) -> bool {
        &&& is_numeral(self.size, 16)
        &&& numeral(self.size, 16) == self.data.len()
        &&& self.data.len() + 2 <= usize::MAX
        &&& self.extension.len() == 0 || self.extension[0] == 59
        &&& unbroken(self.extension)
    }

    /// The line of its size.
    pub open spec fn line(self) -> Seq<u8> {
        self.size + self.extension + seq![13u8, 10u8]
    }

    pub open spec fn bytes(self) -> Seq<u8> {
        self.line() + self.data + seq![13u8, 10u8]
    }
}

/// Chunks one behind the other.
pub open spec fn chunk_bytes(s: Seq<Chunk>) -> Seq<u8>
    decreases s.len(),
{
    if s.len() == 0 {
        Seq::empty()
    } else {
        s[0].bytes() + chunk_bytes(s.skip(1))
    }
}

/// A chunked body: its chunks, the line of an empty one, trailer lines, and a blank line.
pub open spec fn chunked_body(s: Seq<Chunk>, last: Chunk, trailers: Seq<Seq<u8>>) -> Seq<u8> {
    chunk_bytes(s) + last.line() + line_bytes(trailers) + seq![13u8, 10u8]
}

proof fn lemma_size_line(c: Chunk, rest: Seq<u8>)
    requires
        c.wf(),
    ensures
        ({
            let s = c.line() + rest;
            let n: int = c.size.len() as int + c.extension.len();
            &&& ascii::find(s, framing::crlf()) == Some(n)
            &&& framing::chunk_size(s.take(n)) == Some(c.data.len())
            &&& s.skip(n + 2) == rest
            &&& c.line().len() == n + 2
            &&& s.len() > 0
        }),
{
    let s = c.line() + rest;
    let l = c.size + c.extension;
    let n: int = l.len() as int;
    assert forall|i: int| 0 <= i < l.len() - 1 implies !(#[trigger] l[i] == 13 && l[i + 1]
        == 10) by {
        if i < c.size.len() {
            assert(digit(c.size[i]) < 16);
        } else {
            let k: int = i - c.size.len();
            assert(l[i] == c.extension[k] && l[i + 1] == c.extension[k + 1]);
            assert(!(c.extension[k] == 13 && c.extension[k + 1] == 10));
        }
    }
    lemma_line_end(l, rest);
    assert(s =~= l + seq![13u8, 10u8] + rest);
    assert(s.take(n) =~= l);
    assert(s.skip(n + 2) =~= rest);
    let sep = ascii::only(59);
    assert forall|i: int| 0 <= i < c.size.len() implies !sep(#[trigger] l[i]) by {
        assert(digit(c.size[i]) < 16);
    }
    if c.size.len() < l.len() {
        assert(l[c.size.len() as int] == c.extension[0]);
    }
    ascii::lemma_run_until_is(l, sep, c.size.len() as int);
    assert(l.take(c.size.len() as int) =~= c.size);
    lemma_numeral(c.size, 16);
    assert(c.size.subrange(0, c.size.len() as int) =~= c.size);
    assert(wraps(c.size, 0, c.size));
    lemma_wrapped(c.size, 0, c.size);
}

proof fn lemma_trailers(trailers: Seq<Seq<u8>>, more: Seq<u8>)
    requires
        are_lines(trailers),
    ensures
        ({
            let s = line_bytes(trailers) + seq![13u8, 10u8];
            framing::advance(Body::Trailers, s + more) == (Advance {
                body: Body::Ended,
                taken: s.len() as int,
                error: None,
            })
        }),
    decreases trailers.len(),
{
    let s = line_bytes(trailers) + seq![13u8, 10u8];
    let all = s + more;
    if trailers.len() > 0 {
        let l = trailers[0];
        assert(is_line(l));
        let rest = trailers.skip(1);
        assert forall|i: int| 0 <= i < rest.len() implies is_line(#[trigger] rest[i]) by {
            assert(rest[i] == trailers[i + 1]);
        }
        lemma_trailers(rest, more);
        let tail = line_bytes(rest) + seq![13u8, 10u8] + more;
        lemma_line_end(l, tail);
        assert(all =~= l + seq![13u8, 10u8] + tail);
        assert(all.skip(l.len() as int + 2) =~= tail);
    } else {
        let end = Seq::<u8>::empty();
        lemma_line_end(end, more);
        assert(all =~= end + seq![13u8, 10u8] + more);
    }
}

proof fn lemma_chunks(s: Seq<Chunk>, last: Chunk, trailers: Seq<Seq<u8>>, more: Seq<u8>)
    requires
        forall|i: int| 0 <= i < s.len() ==> (#[trigger] s[i]).wf() && s[i].data.len() > 0,
        last.wf(),
        last.data.len() == 0,
        are_lines(trailers),
    ensures
        framing::advance(Body::ChunkSize, chunked_body(s, last, trailers) + more) == (Advance {
            body: Body::Ended,
            taken: chunked_body(s, last, trailers).len() as int,
            error: None,
        }),
    decreases s.len(),
{
    let all = chunked_body(s, last, trailers) + more;
    if s.len() > 0 {
        let c = s[0];
        assert(c.wf() && c.data.len() > 0);
        let rest = s.skip(1);
        assert forall|i: int| 0 <= i < rest.len() implies (#[trigger] rest[i]).wf()
            && rest[i].data.len() > 0 by {
            assert(rest[i] == s[i + 1]);
        }
        lemma_chunks(rest, last, trailers, more);
        let tail = chunked_body(rest, last, trailers) + more;
        assert(all =~= c.bytes() + tail);
        lemma_one_chunk(c, tail);
    } else {
        let tail = line_bytes(trailers) + seq![13u8, 10u8] + more;
        lemma_trailers(trailers, more);
        lemma_size_line(last, tail);
        assert(chunk_bytes(s) =~= Seq::<u8>::empty());
        assert(all =~= last.line() + tail);
        lemma_last_chunk(last, tail);
    }
}

proof fn lemma_one_chunk(c: Chunk, tail: Seq<u8>)
    requires
        c.wf(),
        c.data.len() > 0,
    ensures
        framing::advance(Body::ChunkSize, c.bytes() + tail) == framing::behind(
            framing::advance(Body::ChunkSize, tail),
            c.bytes().len() as int,
        ),
{
    let data = c.data + seq![13u8, 10u8] + tail;
    lemma_size_line(c, data);
    assert(c.bytes() + tail =~= c.line() + data);
    assert(data.skip(c.data.len() as int + 2) =~= tail);
    assert(framing::advance(Body::Chunk(c.data.len() + 2), data) == framing::behind(
        framing::advance(Body::ChunkSize, tail),
        c.data.len() as int + 2,
    ));
}

proof fn lemma_last_chunk(last: Chunk, tail: Seq<u8>)
    requires
        last.wf(),
        last.data.len() == 0,
    ensures
        framing::advance(Body::ChunkSize, last.line() + tail) == framing::behind(
            framing::advance(Body::Trailers, tail),
            last.line().len() as int,
        ),
{
    lemma_size_line(last, tail);
}

/// A message whose fields list the chunked coding and give no length has its chunks, up to and with the
/// trailers behind the empty one, for its body: for a request and, but where its status rules one out,
/// for a response.
#[verifier::spinoff_prover]
#[verifier::rlimit(60)]
pub proof fn law_chunks_delimit_the_body(
    kind: Kind,
    policy: RewritePolicy,
    start: Seq<u8>,
    fields: Seq<Seq<u8>>,
    code: int,
    chunks: Seq<Chunk>,
    last: Chunk,
    trailers: Seq<Seq<u8>>,
    more: Seq<u8>,
)
    requires
        is_line(start),
        are_lines(fields),
        block(start, fields).len() <= 2048,
        starts(kind, start, code),
        kind is Response ==> !has_no_body(code),
        !has_length(fields),
        has_chunked(fields),
        forall|i: int| 0 <= i < chunks.len() ==> (#[trigger] chunks[i]).wf() && chunks[i].data.len()
            > 0,
        last.wf(),
        last.data.len() == 0,
        are_lines(trailers),
    ensures
        ({
            let b = block(start, fields);
            let body = chunked_body(chunks, last, trailers);
            let f = framing::fed(kind, policy, Body::Ended, b + body + more);
            &&& f.error is None
            &&& f.body == body
            &&& f.consumed == b.len() + body.len()
            &&& f.rest is Ended
        }),
{
    let b = block(start, fields);
    let body = chunked_body(chunks, last, trailers);
    assert(length_of(fields, 0));
    let all = b + body + more;
    assert(all =~= b + (body + more));
    lemma_fed(kind, policy, start, fields, code, 0, body + more, all);
    lemma_chunks(chunks, last, trailers, more);
    assert((body + more).take(body.len() as int) =~= body);
}

/// A request whose fields give no length and list no chunked coding has no body; a response without
/// them, but where its status rules one out, takes all that comes until the connection closes.
#[verifier::spinoff_prover]
#[verifier::rlimit(60)]
pub proof fn law_a_message_without_a_length(
    kind: Kind,
    policy: RewritePolicy,
    start: Seq<u8>,
    fields: Seq<Seq<u8>>,
    code: int,
    more: Seq<u8>,
    later: Seq<u8>,
)
    requires
        is_line(start),
        are_lines(fields),
        block(start, fields).len() <= 2048,
        starts(kind, start, code),
        kind is Response ==> !has_no_body(code),
        !has_length(fields),
        !has_chunked(fields),
    ensures
        ({
            let b = block(start, fields);
            let f = framing::fed(kind, policy, Body::Ended, b + more);
            let g = framing::fed(kind, policy, f.rest, later);
            &&& f.error is None
            &&& kind is Request ==> f.body.len() == 0 && f.consumed == b.len() && f.rest is Ended
            &&& kind is Response ==> f.body == more && f.consumed == b.len() + more.len()
            &&& kind is Response ==> g.error is None && g.body == later && g.consumed == later.len()
                && g.rest == f.rest
        }),
{
    assert(length_of(fields, 0));
    lemma_fed(kind, policy, start, fields, code, 0, more, block(start, fields) + more);
    assert(more.take(more.len() as int) =~= more);
    assert(later.take(later.len() as int) =~= later);
    assert(more.len() == 0 ==> more.take(0) =~= more);
    assert(later.len() == 0 ==> later.take(0) =~= later);
}

/// A response of a status that rules out a body has none, whatever its fields say.
pub proof fn law_a_status_may_rule_out_a_body(
    policy: RewritePolicy,
    start: Seq<u8>,
    fields: Seq<Seq<u8>>,
    code: int,
    n: int,
    more: Seq<u8>,
)
    requires
        is_line(start),
        are_lines(fields),
        block(start, fields).len() <= 2048,
        says_status(start, code),
        has_no_body(code),
        length_of(fields, n),
        0 <= n <= usize::MAX,
        !(has_length(fields) && has_chunked(fields)),
    ensures
        ({
            let b = block(start, fields);
            let f = framing::fed(Kind::Response, policy, Body::Ended, b + more);
            &&& f.error is None
            &&& f.body.len() == 0
            &&& f.consumed == b.len()
            &&& f.rest is Ended
        }),
{
    lemma_fed(
        Kind::Response,
        policy,
        start,
        fields,
        code,
        n,
        more,
        block(start, fields) + more,
    );
}

/// A header block of more than 2048 bytes is refused, and so is the front of one.
pub proof fn law_a_long_header_is_refused(
    kind: Kind,
    policy: RewritePolicy,
    start: Seq<u8>,
    fields: Seq<Seq<u8>>,
    more: Seq<u8>,
    k: int,
)
    requires
        is_line(start),
        are_lines(fields),
        block(start, fields).len() > 2048,
        2048 < k < block(start, fields).len(),
    ensures
        framing::fed(kind, policy, Body::Ended, block(start, fields) + more).error == Some(
            FramingError::HeaderTooLong,
        ),
        framing::fed(kind, policy, Body::Ended, block(start, fields).take(k)).error == Some(
            FramingError::HeaderTooLong,
        ),
{
    let all = block(start, fields) + more;
    lemma_block(start, fields, more);
    assert(all.skip(0) =~= all);
    lemma_cut_block(start, fields, k);
    let cut = block(start, fields).take(k);
    assert(cut.skip(0) =~= cut);
}

/// A front of a header block has no end.
proof fn lemma_cut_block(start: Seq<u8>, fields: Seq<Seq<u8>>, k: int)
    requires
        is_line(start),
        are_lines(fields),
        0 <= k < block(start, fields).len(),
    ensures
        framing::blank_run(block(start, fields).take(k)) == 0,
        framing::header_end(block(start, fields).take(k)) is None,
{
    let b = block(start, fields);
    let none = Seq::<u8>::empty();
    let cut = b.take(k);
    let pat = framing::header_terminator();
    lemma_block(start, fields, none);
    assert(b + none =~= b);
    ascii::lemma_find(b, pat);
    ascii::lemma_find(cut, pat);
    if let Some(i) = ascii::find(cut, pat) {
        assert(cut.subrange(i, i + 4) =~= b.subrange(i, i + 4));
        assert(i < b.len() - 4);
        assert(b.subrange(i, i + pat.len()) != pat);
    }
    if framing::crlf().is_prefix_of(cut) {
        assert(framing::crlf() =~= b.subrange(0, 2)) by {
            assert(cut.subrange(0, 2) =~= b.subrange(0, 2));
        }
        assert(framing::crlf().is_prefix_of(b));
        assert(framing::blank_run(b) >= 2) by {
            lemma_blank_run(b.skip(2));
        }
    }
}

proof fn lemma_blank_run(s: Seq<u8>)
    ensures
        framing::blank_run(s) >= 0,
    decreases s.len(),
{
    if framing::crlf().is_prefix_of(s) {
        lemma_blank_run(s.skip(2));
    }
}

/// Nothing is taken of a header block that is not complete, whose front may be fed again with more.
pub proof fn law_an_incomplete_header_waits(
    kind: Kind,
    policy: RewritePolicy,
    start: Seq<u8>,
    fields: Seq<Seq<u8>>,
    k: int,
)
    requires
        is_line(start),
        are_lines(fields),
        0 <= k < block(start, fields).len(),
        k <= 2048,
    ensures
        ({
            let f = framing::fed(kind, policy, Body::Ended, block(start, fields).take(k));
            &&& f.error is None
            &&& f.consumed == 0
            &&& f.header.len() == 0
            &&& f.body.len() == 0
            &&& f.rest is Ended
        }),
{
    lemma_cut_block(start, fields, k);
    let cut = block(start, fields).take(k);
    assert(cut.skip(0) =~= cut);
}

/// Empty lines in front of a message belong to none.
pub proof fn law_empty_lines_in_front_are_skipped(
    kind: Kind,
    policy: RewritePolicy,
    start: Seq<u8>,
    fields: Seq<Seq<u8>>,
    more: Seq<u8>,
)
    requires
        is_line(start),
        are_lines(fields),
    ensures
        ({
            let s = block(start, fields) + more;
            let f = framing::fed(kind, policy, Body::Ended, s);
            let g = framing::fed(kind, policy, Body::Ended, seq![13u8, 10u8] + s);
            &&& g.error == f.error
            &&& g.header == f.header
            &&& g.body == f.body
            &&& g.rest == f.rest
            &&& g.application_url == f.application_url
            &&& f.error is None ==> g.consumed == f.consumed + 2
        }),
{
    let s = block(start, fields) + more;
    let t = seq![13u8, 10u8] + s;
    lemma_block(start, fields, more);
    assert(framing::crlf() =~= t.subrange(0, 2));
    assert(framing::crlf().is_prefix_of(t));
    assert(t.skip(2) =~= s);
    assert(s.skip(0) =~= s);
}

/// A `HEAD` is refused, since the body of its response could not be told.
pub proof fn law_a_head_is_refused(
    policy: RewritePolicy,
    start: Seq<u8>,
    fields: Seq<Seq<u8>>,
    more: Seq<u8>,
)
    requires
        is_line(start),
        are_lines(fields),
        block(start, fields).len() <= 2048,
        asks_head(start),
    ensures
        framing::fed(Kind::Request, policy, Body::Ended, block(start, fields) + more).error == Some(
            FramingError::UnsupportedMethod,
        ),
{
    let b = block(start, fields);
    let all = b + more;
    lemma_block(start, fields, more);
    assert(all.skip(0) =~= all);
    assert(all.take(b.len() as int) =~= b);
    lemma_head(start);
    assert((seq![start] + fields).push(Seq::<u8>::empty())[0] == start);
}

/// What the fields before the last come to, where they are not refused: a length that one of them gives
/// and no other contradicts.
proof fn lemma_scanned(start: Seq<u8>, fields: Seq<Seq<u8>>, kind: Kind)
    ensures
        framing::scan_lines(seq![start] + fields, kind) matches Ok(scan) ==> {
            &&& forall|i: int|
                0 <= i < fields.len() && named(#[trigger] fields[i], "content-length"@)
                    ==> scan.length is Some && says_length(fields[i], scan.length->0 as int)
            &&& scan.chunked == has_chunked(fields)
        },
    decreases fields.len(),
{
    let all = seq![start] + fields;
    if fields.len() > 0 {
        let t = fields.drop_last();
        let l = fields.last();
        let n: int = fields.len() - 1;
        assert(fields[n] == l);
        lemma_scanned(start, t, kind);
        assert(all.drop_last() =~= seq![start] + t);
        assert(all.last() == l);
        lemma_field(l, kind, 0);
        if let Ok(scan) = framing::scan_lines(all, kind) {
            let before = framing::scan_lines(seq![start] + t, kind)->Ok_0;
            if let Field::Length(Some(m)) = framing::field(l, kind) {
                lemma_field(l, kind, m as int);
                assert(scan.length == Some(m));
            }
            assert forall|i: int|
                0 <= i < fields.len() && named(
                    #[trigger] fields[i],
                    "content-length"@,
                ) implies scan.length is Some && says_length(
                fields[i],
                scan.length->0 as int,
            ) by {
                if i < n {
                    assert(t[i] == fields[i]);
                    assert(named(t[i], "content-length"@));
                    assert(before.length is Some);
                    assert(scan.length == before.length);
                }
            }
            if has_chunked(fields) && !says_chunked(l) {
                let i: int = choose|i: int|
                    0 <= i < fields.len() && says_chunked(#[trigger] fields[i]);
                assert(says_chunked(t[i]));
            }
            if has_chunked(t) {
                let i: int = choose|i: int| 0 <= i < t.len() && says_chunked(#[trigger] t[i]);
                assert(fields[i] == t[i]);
                assert(says_chunked(fields[i]));
            }
            if says_chunked(l) {
                assert(says_chunked(fields[n]));
            }
        }
    } else {
        assert(all =~= seq![start]);
    }
}

/// A message is refused where a length of it is no number that fits, where two of its lengths differ, or
/// where it has both a length and a chunked coding: its end could be read in two ways.
pub proof fn law_an_ambiguous_body_is_refused(
    kind: Kind,
    policy: RewritePolicy,
    start: Seq<u8>,
    fields: Seq<Seq<u8>>,
    more: Seq<u8>,
)
    requires
        is_line(start),
        are_lines(fields),
        has_length(fields),
        has_chunked(fields) || !exists|n: int| 0 <= n <= usize::MAX && #[trigger] length_of(fields, n),
    ensures
        framing::fed(kind, policy, Body::Ended, block(start, fields) + more).error is Some,
{
    let b = block(start, fields);
    let all = b + more;
    lemma_block(start, fields, more);
    assert(all.skip(0) =~= all);
    assert(all.take(b.len() as int) =~= b);
    let ls = seq![start] + fields;
    lemma_scan_blank(ls, kind);
    lemma_scanned(start, fields, kind);
    if let Ok(scan) = framing::scan_lines(ls, kind) {
        let i: int = choose|i: int|
            0 <= i < fields.len() && named(#[trigger] fields[i], "content-length"@);
        assert(says_length(fields[i], scan.length->0 as int));
        assert(length_of(fields, scan.length->0 as int));
    }
}

/// The bytes that name an endpoint: its address and its port, which may be left out where it is 80.
pub open spec fn names(text: Seq<u8>, e: SocketAddrV4) -> bool {
    ||| text == ascii::bytes(e.text()) && e.port != 0
    ||| text == ascii::bytes(e.ip.text()) && e.port == 80
}

/// What may follow an endpoint: nothing, or a path, a query, a fragment, a blank, a tab or a return.
pub open spec fn may_follow(tail: Seq<u8>) -> bool {
    tail.len() == 0 || tail[0] == 47 || tail[0] == 63 || tail[0] == 35 || tail[0] == 32 || tail[0]
        == 9 || tail[0] == 13
}

/// Nothing but blanks.
pub open spec fn blanks(s: Seq<u8>) -> bool {
    forall|i: int| 0 <= i < s.len() ==> blank(#[trigger] s[i])
}

pub proof fn lemma_names(text: Seq<u8>, e: SocketAddrV4)
    requires
        names(text, e),
    ensures
        http::host_port(text) == Some(e),
        text.len() > 0,
        !blank(text[0]),
        forall|i: int| 0 <= i < text.len() ==> !http::ends_authority()(#[trigger] text[i]),
{
    if text == ascii::bytes(e.text()) && e.port != 0 {
        http::law_endpoint_text_reads_back(e);
        http::lemma_endpoint_text_bytes(e);
    } else {
        ip::law_ipv4_text_reads_back(e.ip);
        ip::lemma_text_bytes(e.ip);
        ascii::lemma_last_of(text, 58);
        if let Some(i) = ascii::last_of(text, 58) {
            assert(text[i] == 58);
        }
    }
}

/// The value that an endpoint stands in: blanks, a scheme, the endpoint, and what follows it.
pub proof fn lemma_authority(
    pad: Seq<u8>,
    scheme: Seq<u8>,
    text: Seq<u8>,
    tail: Seq<u8>,
    e: SocketAddrV4,
    bare: bool,
)
    requires
        blanks(pad),
        names(text, e),
        may_follow(tail),
        bare ==> scheme.len() == 0,
        !bare ==> same_letters(scheme, ascii::bytes("http://"@)),
    ensures
        ({
            let v = pad + scheme + text + tail;
            &&& ascii::trimmed_start(v) == scheme + text + tail
            &&& http::authority(scheme + text + tail, bare) == Some(
                (e, scheme.len() as int, text.len() as int),
            )
        }),
{
    reveal_strlit("http://");
    lemma_names(text, e);
    let core = scheme + text + tail;
    let v = pad + scheme + text + tail;
    assert(v =~= pad + core);
    if !bare {
        assert(same_letter(scheme[0], ascii::bytes("http://"@)[0]));
        assert(core[0] == scheme[0]);
    } else {
        assert(core[0] == text[0]);
    }
    lemma_pad(pad, core);
    lemma_same_letters(scheme, ascii::bytes("http://"@));
    assert(core.take(scheme.len() as int) =~= scheme);
    let rest = core.skip(scheme.len() as int);
    assert(rest =~= text + tail);
    assert forall|i: int| 0 <= i < text.len() implies !http::ends_authority()(
        #[trigger] rest[i],
    ) by {
        assert(rest[i] == text[i]);
    }
    if tail.len() > 0 {
        assert(rest[text.len() as int] == tail[0]);
    }
    ascii::lemma_run_until_is(rest, http::ends_authority(), text.len() as int);
    assert(rest.take(text.len() as int) =~= text);
}

pub proof fn lemma_pad(pad: Seq<u8>, core: Seq<u8>)
    requires
        blanks(pad),
        core.len() > 0,
        !blank(core[0]),
    ensures
        ascii::trimmed_start(pad + core) == core,
    decreases pad.len(),
{
    let s = pad + core;
    if pad.len() > 0 {
        assert(blank(pad[0]));
        let t = pad.skip(1);
        assert forall|i: int| 0 <= i < t.len() implies blank(#[trigger] t[i]) by {
            assert(t[i] == pad[i + 1]);
        }
        lemma_pad(t, core);
        assert(s.skip(1) =~= t + core);
    } else {
        assert(s =~= core);
    }
}

/// A field whose value an endpoint stands in.
proof fn lemma_field_authority(
    head: Seq<u8>,
    pad: Seq<u8>,
    scheme: Seq<u8>,
    text: Seq<u8>,
    tail: Seq<u8>,
    e: SocketAddrV4,
    bare: bool,
)
    requires
        blanks(pad),
        names(text, e),
        may_follow(tail),
        bare ==> scheme.len() == 0,
        !bare ==> same_letters(scheme, ascii::bytes("http://"@)),
    ensures
        ({
            let line = head + pad + scheme + text + tail;
            let from: int = (head + pad + scheme).len() as int;
            framing::value_authority(line, line.skip(head.len() as int), bare) == Some(
                (e, from, from + text.len()),
            )
        }),
{
    let line = head + pad + scheme + text + tail;
    lemma_authority(pad, scheme, text, tail, e, bare);
    assert(line.skip(head.len() as int) =~= pad + scheme + text + tail);
}

proof fn lemma_replaced(
    front: Seq<u8>,
    text: Seq<u8>,
    tail: Seq<u8>,
    new: Seq<u8>,
)
    ensures
        ({
            let line = front + text + tail;
            let n: int = front.len() as int;
            line.take(n) + new + line.skip(n + text.len()) == front + new + tail
        }),
{
    let line = front + text + tail;
    let n: int = front.len() as int;
    assert(line.take(n) =~= front);
    assert(line.skip(n + text.len()) =~= tail);
}

proof fn lemma_named_is_prefix(line: Seq<u8>)
    ensures
        named(line, "host"@) <==> ascii::after_prefix(line, ascii::bytes("Host:"@)) is Some,
        named(line, "application-url"@) <==> ascii::after_prefix(
            line,
            ascii::bytes("Application-URL:"@),
        ) is Some,
        named(line, "location"@) <==> ascii::after_prefix(line, ascii::bytes("Location:"@)) is Some,
        named(line, "host"@) ==> ascii::after_prefix(line, ascii::bytes("Host:"@)) == Some(
            line.skip(5),
        ),
        named(line, "application-url"@) ==> ascii::after_prefix(
            line,
            ascii::bytes("Application-URL:"@),
        ) == Some(line.skip(16)),
        named(line, "location"@) ==> ascii::after_prefix(line, ascii::bytes("Location:"@)) == Some(
            line.skip(9),
        ),
        !(named(line, "application-url"@) && named(line, "location"@)),
{
    reveal_strlit("host");
    reveal_strlit("Host:");
    reveal_strlit("application-url");
    reveal_strlit("Application-URL:");
    reveal_strlit("location");
    reveal_strlit("Location:");
    let a = ascii::bytes("Host:"@);
    let b = ascii::bytes("Application-URL:"@);
    let c = ascii::bytes("Location:"@);
    assert(same_letters(a.take(4), ascii::bytes("host"@)));
    assert(same_letters(b.take(15), ascii::bytes("application-url"@)));
    assert(same_letters(c.take(8), ascii::bytes("location"@)));
    lemma_named(line, "host"@, a);
    lemma_named(line, "application-url"@, b);
    lemma_named(line, "location"@, c);
    if named(line, "application-url"@) && named(line, "location"@) {
        assert(same_letter(line.take(15)[0], ascii::bytes("application-url"@)[0]));
        assert(same_letter(line.take(8)[0], ascii::bytes("location"@)[0]));
    }
}

/// A request's `Host` that names an endpoint names the policy's instead, where it has one, with all else
/// of the line as it was; a response's is left alone.
pub proof fn law_a_host_is_rewritten(
    head: Seq<u8>,
    pad: Seq<u8>,
    text: Seq<u8>,
    tail: Seq<u8>,
    e: SocketAddrV4,
    policy: RewritePolicy,
)
    requires
        head.len() == 5,
        named(head, "host"@),
        blanks(pad),
        names(text, e),
        may_follow(tail),
    ensures
        ({
            let line = head + pad + text + tail;
            &&& framing::rewritten(line, Kind::Request, policy) == match policy.host {
                Some(target) => head + pad + ascii::bytes(target.text()) + tail,
                None => line,
            }
            &&& framing::rewritten(line, Kind::Response, policy) == line
        }),
{
    let line = head + pad + text + tail;
    let none = Seq::<u8>::empty();
    reveal_strlit("host");
    reveal_strlit("application-url");
    reveal_strlit("location");
    assert(line.take(4) =~= head.take(4));
    assert(named(line, "host"@));
    lemma_named_is_prefix(line);
    lemma_field_authority(head, pad, none, text, tail, e, true);
    assert(head + pad + none =~= head + pad);
    assert(head + pad + none + text + tail =~= line);
    if let Some(target) = policy.host {
        lemma_replaced(head + pad, text, tail, ascii::bytes(target.text()));
    }
    assert(same_letter(line.take(4)[0], ascii::bytes("host"@)[0]));
    if named(line, "application-url"@) {
        assert(same_letter(line.take(15)[0], ascii::bytes("application-url"@)[0]));
    }
    if named(line, "location"@) {
        assert(same_letter(line.take(8)[0], ascii::bytes("location"@)[0]));
    }
}

/// A response's `Application-URL` or `Location` that names an endpoint behind `http://` names the
/// policy's instead, where it has one, with all else of the line as it was; a request's is left alone.
pub proof fn law_a_url_is_rewritten(
    head: Seq<u8>,
    pad: Seq<u8>,
    scheme: Seq<u8>,
    text: Seq<u8>,
    tail: Seq<u8>,
    e: SocketAddrV4,
    policy: RewritePolicy,
    location: bool,
)
    requires
        location ==> head.len() == 9 && named(head, "location"@),
        !location ==> head.len() == 16 && named(head, "application-url"@),
        blanks(pad),
        same_letters(scheme, ascii::bytes("http://"@)),
        names(text, e),
        may_follow(tail),
    ensures
        ({
            let line = head + pad + scheme + text + tail;
            let target = if location {
                policy.location
            } else {
                policy.application_url
            };
            &&& framing::rewritten(line, Kind::Response, policy) == match target {
                Some(target) => head + pad + scheme + ascii::bytes(target.text()) + tail,
                None => line,
            }
            &&& framing::rewritten(line, Kind::Request, policy) == line
            &&& !location ==> framing::field(line, Kind::Response) == Field::Authority(
                AuthorityHeader::ApplicationUrl(e),
            )
        }),
{
    let line = head + pad + scheme + text + tail;
    reveal_strlit("host");
    reveal_strlit("application-url");
    reveal_strlit("location");
    reveal_strlit("content-length");
    reveal_strlit("transfer-encoding");
    if location {
        assert(line.take(8) =~= head.take(8));
        assert(named(line, "location"@));
        assert(same_letter(line.take(8)[0], ascii::bytes("location"@)[0]));
    } else {
        assert(line.take(15) =~= head.take(15));
        assert(named(line, "application-url"@));
        assert(same_letter(line.take(15)[0], ascii::bytes("application-url"@)[0]));
    }
    lemma_named_is_prefix(line);
    lemma_field_authority(head, pad, scheme, text, tail, e, false);
    let target = if location {
        policy.location
    } else {
        policy.application_url
    };
    if let Some(target) = target {
        lemma_replaced(head + pad + scheme, text, tail, ascii::bytes(target.text()));
    }
    if named(line, "host"@) {
        assert(same_letter(line.take(4)[0], ascii::bytes("host"@)[0]));
    }
    if !location {
        lemma_not_framing(line);
    }
}

/// An `Application-URL` is no field of the framing.
proof fn lemma_not_framing(line: Seq<u8>)
    requires
        named(line, "application-url"@),
    ensures
        ascii::after_prefix(line, ascii::bytes("Content-Length:"@)) is None,
        ascii::after_prefix(line, ascii::bytes("Transfer-Encoding:"@)) is None,
{
    reveal_strlit("application-url");
    reveal_strlit("content-length");
    reveal_strlit("Content-Length:");
    reveal_strlit("transfer-encoding");
    reveal_strlit("Transfer-Encoding:");
    let a = ascii::bytes("Content-Length:"@);
    let b = ascii::bytes("Transfer-Encoding:"@);
    assert(same_letters(a.take(14), ascii::bytes("content-length"@)));
    assert(same_letters(b.take(17), ascii::bytes("transfer-encoding"@)));
    lemma_named(line, "content-length"@, a);
    lemma_named(line, "transfer-encoding"@, b);
    assert(same_letter(line.take(15)[0], ascii::bytes("application-url"@)[0]));
    if named(line, "content-length"@) {
        assert(same_letter(line.take(14)[0], ascii::bytes("content-length"@)[0]));
    }
    if named(line, "transfer-encoding"@) {
        assert(same_letter(line.take(17)[0], ascii::bytes("transfer-encoding"@)[0]));
    }
}

/// Every other field is forwarded as it is.
pub proof fn law_another_field_is_left_alone(line: Seq<u8>, policy: RewritePolicy)
    ensures
        !named(line, "host"@) ==> framing::rewritten(line, Kind::Request, policy) == line,
        !named(line, "application-url"@) && !named(line, "location"@) ==> framing::rewritten(
            line,
            Kind::Response,
            policy,
        ) == line,
{
    lemma_named_is_prefix(line);
}

/// The fields with their endpoints rewritten.
pub open spec fn all_rewritten(fields: Seq<Seq<u8>>, kind: Kind, policy: RewritePolicy) -> Seq<
    Seq<u8>,
> {
    Seq::new(fields.len(), |i: int| framing::rewritten(fields[i], kind, policy))
}

proof fn lemma_one_more_line(s: Seq<Seq<u8>>, l: Seq<u8>)
    ensures
        line_bytes(s.push(l)) == line_bytes(s) + l + seq![13u8, 10u8],
    decreases s.len(),
{
    let all = s.push(l);
    if s.len() > 0 {
        lemma_one_more_line(s.skip(1), l);
        assert(all.skip(1) =~= s.skip(1).push(l));
    } else {
        reveal_with_fuel(line_bytes, 2);
        assert(all.skip(1) =~= Seq::<Seq<u8>>::empty());
    }
    assert(line_bytes(all) =~= line_bytes(s) + l + seq![13u8, 10u8]);
}

proof fn lemma_rewritten_lines(start: Seq<u8>, fields: Seq<Seq<u8>>, kind: Kind, policy: RewritePolicy)
    ensures
        framing::rewritten_block(seq![start] + fields, kind, policy) == line_bytes(
            seq![start] + all_rewritten(fields, kind, policy),
        ),
    decreases fields.len(),
{
    let ls = seq![start] + fields;
    let new = seq![start] + all_rewritten(fields, kind, policy);
    if fields.len() > 0 {
        let t = fields.drop_last();
        lemma_rewritten_lines(start, t, kind, policy);
        assert(ls.drop_last() =~= seq![start] + t);
        let l = framing::rewritten(fields.last(), kind, policy);
        let before = seq![start] + all_rewritten(t, kind, policy);
        assert(new =~= before.push(l));
        lemma_one_more_line(before, l);
        assert(framing::crlf() =~= seq![13u8, 10u8]);
    } else {
        assert(ls =~= seq![start]);
        assert(new =~= seq![start]);
        reveal_with_fuel(line_bytes, 2);
        assert(new.skip(1) =~= Seq::<Seq<u8>>::empty());
        assert(line_bytes(new) =~= start + seq![13u8, 10u8]);
        assert(framing::crlf() =~= seq![13u8, 10u8]);
    }
}

/// The header that is forwarded is the block with its fields rewritten one by one: the start line first,
/// every line in its place, and the blank line last.
#[verifier::spinoff_prover]
#[verifier::rlimit(60)]
pub proof fn law_a_header_is_forwarded_line_by_line(
    kind: Kind,
    policy: RewritePolicy,
    start: Seq<u8>,
    fields: Seq<Seq<u8>>,
    code: int,
    n: int,
    more: Seq<u8>,
)
    requires
        is_line(start),
        are_lines(fields),
        block(start, fields).len() <= 2048,
        starts(kind, start, code),
        length_of(fields, n),
        0 <= n <= usize::MAX,
        !(has_length(fields) && has_chunked(fields)),
        framing::fed(kind, policy, Body::Ended, block(start, fields) + more).error is None,
    ensures
        framing::fed(kind, policy, Body::Ended, block(start, fields) + more).header == block(
            start,
            all_rewritten(fields, kind, policy),
        ),
{
    let b = block(start, fields);
    lemma_fed(kind, policy, start, fields, code, n, more, b + more);
    lemma_block(start, fields, more);
    lemma_forwarded(kind, policy, start, fields);
}

proof fn lemma_forwarded(kind: Kind, policy: RewritePolicy, start: Seq<u8>, fields: Seq<Seq<u8>>)
    ensures
        framing::rewritten_block(
            (seq![start] + fields).push(Seq::<u8>::empty()),
            kind,
            policy,
        ) == block(start, all_rewritten(fields, kind, policy)),
{
    let ls = seq![start] + fields;
    let end = Seq::<u8>::empty();
    let all = ls.push(end);
    lemma_rewritten_lines(start, fields, kind, policy);
    assert(all.drop_last() =~= ls);
    assert(all.last() == end);
    law_another_field_is_left_alone(end, policy);
    assert(framing::rewritten(end, kind, policy) == end);
    let new = line_bytes(seq![start] + all_rewritten(fields, kind, policy));
    assert(new + end + framing::crlf() =~= new + seq![13u8, 10u8]);
}

/// A response reports the endpoint of its first `Application-URL`, before it is rewritten, and none where
/// it has no such field.
pub proof fn law_the_first_application_url_is_reported(
    policy: RewritePolicy,
    start: Seq<u8>,
    fields: Seq<Seq<u8>>,
    code: int,
    n: int,
    more: Seq<u8>,
    i: int,
    e: SocketAddrV4,
)
    requires
        is_line(start),
        are_lines(fields),
        block(start, fields).len() <= 2048,
        says_status(start, code),
        code <= 0xffff,
        length_of(fields, n),
        0 <= n <= usize::MAX,
        !(has_length(fields) && has_chunked(fields)),
        framing::fed(Kind::Response, policy, Body::Ended, block(start, fields) + more).error is None,
        0 <= i <= fields.len(),
        forall|j: int| 0 <= j < i ==> !named(#[trigger] fields[j], "application-url"@),
        i < fields.len() ==> framing::field(fields[i], Kind::Response) == Field::Authority(
            AuthorityHeader::ApplicationUrl(e),
        ),
    ensures
        framing::fed(Kind::Response, policy, Body::Ended, block(start, fields)
            + more).application_url == (if i < fields.len() {
            Some(e)
        } else {
            None
        }),
{
    let b = block(start, fields);
    lemma_fed(Kind::Response, policy, start, fields, code, n, more, b + more);
    lemma_block(start, fields, more);
    let ls = seq![start] + fields;
    lemma_scan_blank(ls, Kind::Response);
    lemma_reported(start, fields, i, e);
}

proof fn lemma_reported(start: Seq<u8>, fields: Seq<Seq<u8>>, i: int, e: SocketAddrV4)
    requires
        0 <= i <= fields.len(),
        forall|j: int| 0 <= j < i ==> !named(#[trigger] fields[j], "application-url"@),
        i < fields.len() ==> framing::field(fields[i], Kind::Response) == Field::Authority(
            AuthorityHeader::ApplicationUrl(e),
        ),
    ensures
        framing::scan_lines(seq![start] + fields, Kind::Response) matches Ok(scan)
            ==> scan.application_url == (if i < fields.len() {
            Some(e)
        } else {
            None
        }),
    decreases fields.len(),
{
    let all = seq![start] + fields;
    if fields.len() > 0 {
        let t = fields.drop_last();
        let l = fields.last();
        let n: int = fields.len() - 1;
        assert(fields[n] == l);
        assert(all.drop_last() =~= seq![start] + t);
        assert(all.last() == l);
        assert forall|j: int| 0 <= j < t.len() implies t[j] == #[trigger] fields[j] by {}
        if i == fields.len() {
            assert forall|j: int| 0 <= j < t.len() implies !named(
                #[trigger] t[j],
                "application-url"@,
            ) by {
                assert(!named(fields[j], "application-url"@));
            }
            lemma_reported(start, t, n, e);
            assert(!named(fields[n], "application-url"@));
            lemma_named_is_prefix(l);
        } else {
            assert forall|j: int| 0 <= j < i implies !named(#[trigger] t[j], "application-url"@) by {
                assert(!named(fields[j], "application-url"@));
            }
            lemma_reported(start, t, i, e);
        }
    } else {
        assert(all =~= seq![start]);
    }
}

} // verus!
