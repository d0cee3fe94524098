//! Byte strings read as ASCII text: case folding, trimming, searching and splitting.

use vstd::prelude::*;

verus! {

/// The bytes of an ASCII text.
pub open spec fn bytes(s: Seq<char>) -> Seq<u8> {
    s.map_values(|c: char| c as u8)
}

/// The byte with an ASCII capital turned into its small letter.
pub open spec fn lower(b: u8) -> u8 {
    if 'A' as u8 <= b <= 'Z' as u8 {
        (b + 32) as u8
    } else {
        b
    }
}

/// The bytes with every ASCII capital turned into its small letter.
pub open spec fn folded(s: Seq<u8>) -> Seq<u8> {
    s.map_values(|b: u8| lower(b))
}

/// ASCII white space: space, tab, line feed, form feed and carriage return.
pub open spec fn is_space(b: u8) -> bool {
    b == 0x20 || b == 0x09 || b == 0x0a || b == 0x0c || b == 0x0d
}

/// The bytes without the white space in front.
pub open spec fn trimmed_start(s: Seq<u8>) -> Seq<u8>
    decreases s.len(),
{
    if s.len() > 0 && is_space(s[0]) {
        trimmed_start(s.skip(1))
    } else {
        s
    }
}

/// The bytes without the white space behind.
pub open spec fn trimmed_end(s: Seq<u8>) -> Seq<u8>
    decreases s.len(),
{
    if s.len() > 0 && is_space(s.last()) {
        trimmed_end(s.drop_last())
    } else {
        s
    }
}

/// The bytes without the white space around them.
pub open spec fn trimmed(s: Seq<u8>) -> Seq<u8> {
    trimmed_end(trimmed_start(s))
}

/// How many bytes stand before the first one that `p` holds of; all of them where there is none.
pub open spec fn run_until(s: Seq<u8>, p: spec_fn(u8) -> bool) -> nat
    decreases s.len(),
{
    if s.len() == 0 || p(s[0]) {
        0
    } else {
        1 + run_until(s.skip(1), p)
    }
}

/// The predicate that holds of `b` alone.
pub open spec fn only(b: u8) -> spec_fn(u8) -> bool {
    |x: u8| x == b
}

/// The bytes before the first `sep`; all of them where there is none.
pub open spec fn before(s: Seq<u8>, sep: u8) -> Seq<u8> {
    s.take(run_until(s, only(sep)) as int)
}

/// The position of the first `b`.
pub open spec fn first_of(s: Seq<u8>, b: u8) -> Option<int> {
    let n: int = run_until(s, only(b)) as int;
    if n < s.len() {
        Some(n)
    } else {
        None
    }
}

/// The position of the last `b`.
pub open spec fn last_of(s: Seq<u8>, b: u8) -> Option<int>
    decreases s.len(),
{
    if s.len() == 0 {
        None
    } else if s.last() == b {
        Some(s.len() - 1)
    } else {
        last_of(s.drop_last(), b)
    }
}

/// The fields of `s` between the bytes `sep`; one more than there are separators.
pub open spec fn fields(s: Seq<u8>, sep: u8) -> Seq<Seq<u8>>
    decreases s.len(),
{
    match first_of(s, sep) {
        None => seq![s],
        Some(i) => if 0 <= i < s.len() {
            seq![s.take(i)] + fields(s.skip(i + 1), sep)
        } else {
            seq![s]
        },
    }
}

/// Where `pat` first occurs in `s`.
pub open spec fn find(s: Seq<u8>, pat: Seq<u8>) -> Option<int>
    decreases s.len(),
{
    if pat.is_prefix_of(s) {
        Some(0)
    } else if s.len() == 0 {
        None
    } else {
        match find(s.skip(1), pat) {
            Some(i) => Some(i + 1),
            None => None,
        }
    }
}

/// `find` finds the first occurrence.
pub proof fn lemma_find(s: Seq<u8>, pat: Seq<u8>)
    ensures
        match find(s, pat) {
            Some(i) => 0 <= i && i + pat.len() <= s.len() && s.subrange(i, i + pat.len()) == pat
                && forall|j: int|
                0 <= j < i ==> #[trigger] s.subrange(j, j + pat.len()) != pat,
            None => forall|j: int|
                0 <= j && j + pat.len() <= s.len() ==> #[trigger] s.subrange(j, j + pat.len())
                    != pat,
        },
    decreases s.len(),
{
    if pat.is_prefix_of(s) {
        assert(s.subrange(0int, 0int + pat.len()) =~= pat);
    } else if s.len() > 0 {
        let t = s.skip(1);
        lemma_find(t, pat);
        assert forall|j: int| 1 <= j && j + pat.len() <= s.len() implies #[trigger] s.subrange(
            j,
            j + pat.len(),
        ) == t.subrange(j - 1, j - 1 + pat.len()) by {
            assert(s.subrange(j, j + pat.len()) =~= t.subrange(j - 1, j - 1 + pat.len()));
        }
        if pat.len() <= s.len() {
            assert(s.subrange(0int, 0int + pat.len()) != pat) by {
                if s.subrange(0int, 0int + pat.len()) == pat {
                    assert(pat =~= s.subrange(0, pat.len() as int));
                }
            }
        }
    } else {
        assert(pat.len() > 0) by {
            if pat.len() == 0 {
                assert(pat =~= s.subrange(0, 0));
            }
        }
    }
}

/// The first occurrence stays the first when more bytes follow.
pub proof fn lemma_find_extends(s: Seq<u8>, more: Seq<u8>, pat: Seq<u8>)
    requires
        find(s, pat) is Some,
    ensures
        find(s + more, pat) == find(s, pat),
    decreases s.len(),
{
    if pat.is_prefix_of(s) {
        assert(pat =~= (s + more).subrange(0, pat.len() as int));
    } else {
        assert(s.len() > 0);
        lemma_find_extends(s.skip(1), more, pat);
        assert((s + more).skip(1) =~= s.skip(1) + more);
        lemma_find(s, pat);
        let i: int = find(s, pat)->0;
        assert(i > 0);
        assert(s.subrange(0int, 0int + pat.len()) != pat);
        assert((s + more).subrange(0, pat.len() as int) =~= s.subrange(0int, 0int + pat.len()));
    }
}

/// `run_until` stops at the first byte that `p` holds of.
pub proof fn lemma_run_until(s: Seq<u8>, p: spec_fn(u8) -> bool)
    ensures
        run_until(s, p) <= s.len(),
        forall|i: int| 0 <= i < run_until(s, p) ==> !p(#[trigger] s[i]),
        run_until(s, p) < s.len() ==> p(s[run_until(s, p) as int]),
    decreases s.len(),
{
    if s.len() > 0 && !p(s[0]) {
        let t = s.skip(1);
        lemma_run_until(t, p);
        assert forall|i: int| 0 <= i < run_until(s, p) implies !p(#[trigger] s[i]) by {
            if i > 0 {
                assert(s[i] == t[i - 1]);
            }
        }
    }
}

/// A position with nothing of `p` before it, and `p` at it or the end, is where `run_until` stops.
pub proof fn lemma_run_until_is(s: Seq<u8>, p: spec_fn(u8) -> bool, n: int)
    requires
        0 <= n <= s.len(),
        forall|i: int| 0 <= i < n ==> !p(#[trigger] s[i]),
        n < s.len() ==> p(s[n]),
    ensures
        run_until(s, p) == n,
{
    lemma_run_until(s, p);
    let r: int = run_until(s, p) as int;
    if r < n {
        assert(!p(s[r]));
    } else if n < r {
        assert(p(s[n]));
    }
}

/// `last_of` finds the last one.
pub proof fn lemma_last_of(s: Seq<u8>, b: u8)
    ensures
        match last_of(s, b) {
            Some(i) => 0 <= i < s.len() && s[i] == b && forall|j: int|
                i < j < s.len() ==> #[trigger] s[j] != b,
            None => forall|j: int| 0 <= j < s.len() ==> #[trigger] s[j] != b,
        },
    decreases s.len(),
{
    if s.len() > 0 && s.last() != b {
        let t = s.drop_last();
        lemma_last_of(t, b);
        assert(forall|j: int| 0 <= j < t.len() ==> #[trigger] s[j] == t[j]);
    }
}

/// White space in front leaves the end of the bytes where it is.
pub proof fn lemma_trimmed_start(s: Seq<u8>)
    ensures
        trimmed_start(s).len() <= s.len(),
        trimmed_start(s) == s.skip(s.len() - trimmed_start(s).len()),
        forall|i: int| 0 <= i < s.len() - trimmed_start(s).len() ==> is_space(#[trigger] s[i]),
        trimmed_start(s).len() > 0 ==> !is_space(trimmed_start(s)[0]),
    decreases s.len(),
{
    if s.len() > 0 && is_space(s[0]) {
        let t = s.skip(1);
        lemma_trimmed_start(t);
        assert(trimmed_start(s) =~= s.skip(s.len() - trimmed_start(s).len()));
        assert forall|i: int| 0 <= i < s.len() - trimmed_start(s).len() implies is_space(
            #[trigger] s[i],
        ) by {
            if i > 0 {
                assert(s[i] == t[i - 1]);
            }
        }
    } else {
        assert(s.skip(0) =~= s);
    }
}

/// The bytes of an ASCII literal.
pub fn ascii_bytes<'a>(s: &'a str) -> (r: &'a [u8])
    requires
        vstd::utf8::is_ascii_chars(s@),
    ensures
        r@ == bytes(s@),
{
    broadcast use vstd::string::is_ascii_spec_bytes;

    let r = s.as_bytes();
    assert(vstd::string::is_ascii(s));
    assert(r@ =~= bytes(s@));
    r
}

/// The bytes before position `n`.
pub fn take(s: &[u8], n: usize) -> (r: &[u8])
    requires
        n <= s@.len(),
    ensures
        r@ == s@.take(n as int),
{
    &s[0..n]
}

/// The bytes from position `n` on.
pub fn skip(s: &[u8], n: usize) -> (r: &[u8])
    requires
        n <= s@.len(),
    ensures
        r@ == s@.skip(n as int),
{
    &s[n..s.len()]
}

/// See [`lower`].
pub fn to_lower(b: u8) -> (r: u8)
    ensures
        r == lower(b),
{
    if 'A' as u8 <= b && b <= 'Z' as u8 {
        b + 32
    } else {
        b
    }
}

/// Whether the two are equal but for the case of ASCII letters.
pub fn eq_ignore_case(a: &[u8], b: &[u8]) -> (r: bool)
    ensures
        r == (folded(a@) == folded(b@)),
{
    if a.len() != b.len() {
        assert(folded(a@).len() == a@.len() && folded(b@).len() == b@.len());
        return false;
    }
    let mut i: usize = 0;
    while i < a.len()
        invariant
            i <= a@.len(),
            a@.len() == b@.len(),
            forall|j: int| 0 <= j < i ==> lower(#[trigger] a@[j]) == lower(b@[j]),
        decreases a@.len() - i,
    {
        if to_lower(a[i]) != to_lower(b[i]) {
            assert(folded(a@)[i as int] != folded(b@)[i as int]);
            return false;
        }
        i += 1;
    }
    assert(folded(a@) =~= folded(b@));
    true
}

/// Whether `a` and `b` hold the same bytes.
pub fn eq_bytes(a: &[u8], b: &[u8]) -> (r: bool)
    ensures
        r == (a@ == b@),
{
    if a.len() != b.len() {
        return false;
    }
    let mut i: usize = 0;
    while i < a.len()
        invariant
            i <= a@.len(),
            a@.len() == b@.len(),
            forall|j: int| 0 <= j < i ==> #[trigger] a@[j] == b@[j],
        decreases a@.len() - i,
    {
        if a[i] != b[i] {
            return false;
        }
        i += 1;
    }
    assert(a@ =~= b@);
    true
}

/// Whether `s` holds the bytes of the ASCII text `text`.
pub fn eq_text(s: &[u8], text: &Vec<char>) -> (r: bool)
    ensures
        r == (s@ == bytes(text@)),
{
    if s.len() != text.len() {
        assert(bytes(text@).len() == text@.len());
        return false;
    }
    let mut i: usize = 0;
    while i < s.len()
        invariant
            i <= s@.len(),
            s@.len() == text@.len(),
            forall|j: int| 0 <= j < i ==> #[trigger] s@[j] == text@[j] as u8,
        decreases s@.len() - i,
    {
        if s[i] != text[i] as u8 {
            assert(bytes(text@)[i as int] != s@[i as int]);
            return false;
        }
        i += 1;
    }
    assert(s@ =~= bytes(text@));
    true
}

/// Append the bytes of the ASCII text `text`.
pub fn push_ascii(out: &mut Vec<u8>, text: &Vec<char>)
    ensures
        final(out)@ == old(out)@ + bytes(text@),
{
    let mut i: usize = 0;
    while i < text.len()
        invariant
            i <= text@.len(),
            out@ == old(out)@ + bytes(text@.take(i as int)),
        decreases text@.len() - i,
    {
        out.push(text[i] as u8);
        i += 1;
        assert(out@ =~= old(out)@ + bytes(text@.take(i as int)));
    }
    assert(text@.take(i as int) =~= text@);
}

/// Whether `s` starts with `prefix`.
pub fn starts_with(s: &[u8], prefix: &[u8]) -> (r: bool)
    ensures
        r == prefix@.is_prefix_of(s@),
{
    if s.len() < prefix.len() {
        return false;
    }
    let r = eq_bytes(take(s, prefix.len()), prefix);
    assert(s@.take(prefix@.len() as int) =~= s@.subrange(0, prefix@.len() as int));
    r
}

/// See [`trimmed_start`].
pub fn trim_start(s: &[u8]) -> (r: &[u8])
    ensures
        r@ == trimmed_start(s@),
{
    let mut i: usize = 0;
    assert(s@.skip(0) =~= s@);
    while i < s.len() && is_space_byte(s[i])
        invariant
            i <= s@.len(),
            trimmed_start(s@) == trimmed_start(s@.skip(i as int)),
        decreases s@.len() - i,
    {
        assert(s@.skip(i as int).skip(1) =~= s@.skip(i + 1));
        i += 1;
    }
    skip(s, i)
}

/// See [`trimmed_end`].
pub fn trim_end(s: &[u8]) -> (r: &[u8])
    ensures
        r@ == trimmed_end(s@),
{
    let mut n: usize = s.len();
    assert(s@.take(n as int) =~= s@);
    while n > 0 && is_space_byte(s[n - 1])
        invariant
            n <= s@.len(),
            trimmed_end(s@) == trimmed_end(s@.take(n as int)),
        decreases n,
    {
        assert(s@.take(n as int).drop_last() =~= s@.take(n - 1));
        n -= 1;
    }
    take(s, n)
}

/// See [`trimmed`].
pub fn trim(s: &[u8]) -> (r: &[u8])
    ensures
        r@ == trimmed(s@),
{
    trim_end(trim_start(s))
}

/// See [`is_space`].
pub fn is_space_byte(b: u8) -> (r: bool)
    ensures
        r == is_space(b),
{
    b == 0x20 || b == 0x09 || b == 0x0a || b == 0x0c || b == 0x0d
}

/// See [`first_of`].
pub fn find_byte(s: &[u8], b: u8) -> (r: Option<usize>)
    ensures
        match r {
            Some(i) => first_of(s@, b) == Some(i as int) && i < s@.len() <= usize::MAX,
            None => first_of(s@, b) is None,
        },
{
    let mut i: usize = 0;
    while i < s.len()
        invariant
            i <= s@.len(),
            forall|j: int| 0 <= j < i ==> #[trigger] s@[j] != b,
        decreases s@.len() - i,
    {
        if s[i] == b {
            proof {
                lemma_run_until_is(s@, only(b), i as int);
            }
            return Some(i);
        }
        i += 1;
    }
    proof {
        lemma_run_until_is(s@, only(b), i as int);
    }
    None
}

/// See [`find`].
pub fn find_bytes(s: &[u8], pat: &[u8]) -> (r: Option<usize>)
    ensures
        match r {
            Some(i) => find(s@, pat@) == Some(i as int) && i + pat@.len() <= s@.len() <= usize::MAX,
            None => find(s@, pat@) is None,
        },
{
    let mut i: usize = 0;
    assert(s@.skip(0) =~= s@);
    loop
        invariant
            i <= s@.len(),
            match find(s@.skip(i as int), pat@) {
                Some(k) => find(s@, pat@) == Some(k + i),
                None => find(s@, pat@) is None,
            },
        decreases s@.len() - i,
    {
        let rest = skip(s, i);
        if starts_with(rest, pat) {
            assert(s.len() == s@.len());
            return Some(i);
        }
        if i == s.len() {
            return None;
        }
        assert(s@.skip(i as int).skip(1) =~= s@.skip(i + 1));
        i += 1;
    }
}

/// See [`last_of`].
pub fn rfind_byte(s: &[u8], b: u8) -> (r: Option<usize>)
    ensures
        match r {
            Some(i) => last_of(s@, b) == Some(i as int) && i < s@.len() <= usize::MAX,
            None => last_of(s@, b) is None,
        },
{
    let mut n: usize = s.len();
    assert(s@.take(n as int) =~= s@);
    while n > 0
        invariant
            n <= s@.len(),
            last_of(s@, b) == last_of(s@.take(n as int), b),
        decreases n,
    {
        if s[n - 1] == b {
            return Some(n - 1);
        }
        assert(s@.take(n as int).drop_last() =~= s@.take(n - 1));
        n -= 1;
    }
    None
}

/// What is left of `line` behind `prefix`, which it starts with but for the case of letters.
pub open spec fn after_prefix(line: Seq<u8>, prefix: Seq<u8>) -> Option<Seq<u8>> {
    if line.len() >= prefix.len() && folded(line.take(prefix.len() as int)) == folded(prefix) {
        Some(line.skip(prefix.len() as int))
    } else {
        None
    }
}

} // verus!
