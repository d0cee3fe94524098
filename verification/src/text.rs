//! Text as sequences of characters: trimming, case folding, splitting and assembling.

use vstd::prelude::*;

use crate::ascii;

verus! {

/// A Unicode `White_Space` character.
pub open spec fn is_space(c: char) -> bool {
    ||| '\u{9}' <= c <= '\u{d}'
    ||| c == '\u{20}'
    ||| c == '\u{85}'
    ||| c == '\u{a0}'
    ||| c == '\u{1680}'
    ||| '\u{2000}' <= c <= '\u{200a}'
    ||| c == '\u{2028}'
    ||| c == '\u{2029}'
    ||| c == '\u{202f}'
    ||| c == '\u{205f}'
    ||| c == '\u{3000}'
}

/// Some character of `s` is white space.
pub open spec fn has_space(s: Seq<char>) -> bool {
    exists|i: int| 0 <= i < s.len() && is_space(#[trigger] s[i])
}

/// Without the white space in front.
pub open spec fn trimmed_start(s: Seq<char>) -> Seq<char>
    decreases s.len(),
{
    if s.len() > 0 && is_space(s[0]) {
        trimmed_start(s.skip(1))
    } else {
        s
    }
}

/// Without the white space behind.
pub open spec fn trimmed_end(s: Seq<char>) -> Seq<char>
    decreases s.len(),
{
    if s.len() > 0 && is_space(s.last()) {
        trimmed_end(s.drop_last())
    } else {
        s
    }
}

/// Without the white space around.
pub open spec fn trimmed(s: Seq<char>) -> Seq<char> {
    trimmed_end(trimmed_start(s))
}

/// The lower case of an ASCII letter; any other character unchanged.
pub open spec fn lower(c: char) -> char {
    if 'A' <= c <= 'Z' {
        ((c as u32) + 32) as char
    } else {
        c
    }
}

/// Every ASCII letter in lower case.
pub open spec fn folded(s: Seq<char>) -> Seq<char> {
    s.map_values(|c: char| lower(c))
}

/// The pieces between the separators.
pub open spec fn split(s: Seq<char>, sep: char) -> Seq<Seq<char>>
    decreases s.len(),
{
    if s.len() == 0 {
        seq![Seq::<char>::empty()]
    } else {
        let rest = split(s.skip(1), sep);
        if s[0] == sep {
            seq![Seq::<char>::empty()] + rest
        } else {
            rest.update(0, seq![s[0]] + rest[0])
        }
    }
}

/// The parts with `sep` between them.
pub open spec fn joined(parts: Seq<Seq<char>>, sep: Seq<char>) -> Seq<char>
    decreases parts.len(),
{
    if parts.len() == 0 {
        Seq::empty()
    } else if parts.len() == 1 {
        parts[0]
    } else {
        joined(parts.drop_last(), sep) + sep + parts.last()
    }
}

/// `a` comes before `b`, character by character.
pub open spec fn comes_before(a: Seq<char>, b: Seq<char>) -> bool
    decreases a.len(),
{
    if b.len() == 0 {
        false
    } else if a.len() == 0 {
        true
    } else if a[0] == b[0] {
        comes_before(a.skip(1), b.skip(1))
    } else {
        a[0] < b[0]
    }
}

/// Nothing comes before itself, and of two different texts one comes first.
pub proof fn lemma_order_is_total(a: Seq<char>, b: Seq<char>)
    ensures
        comes_before(a, b) ==> !comes_before(b, a) && a != b,
        !comes_before(a, b) && !comes_before(b, a) ==> a == b,
    decreases a.len(),
{
    if a.len() > 0 && b.len() > 0 && a[0] == b[0] {
        lemma_order_is_total(a.skip(1), b.skip(1));
        if a.skip(1) == b.skip(1) {
            assert(a =~= b) by {
                assert forall|i: int| 0 < i < a.len() implies a[i] == b[i] by {
                    assert(a[i] == a.skip(1)[i - 1]);
                    assert(b[i] == b.skip(1)[i - 1]);
                }
            }
        }
    } else if a.len() == 0 && b.len() == 0 {
        assert(a =~= b);
    }
}

/// The order is transitive.
pub proof fn lemma_order_is_transitive(a: Seq<char>, b: Seq<char>, c: Seq<char>)
    requires
        comes_before(a, b),
        comes_before(b, c),
    ensures
        comes_before(a, c),
    decreases a.len(),
{
    if a.len() > 0 && a[0] == b[0] && b[0] == c[0] {
        lemma_order_is_transitive(a.skip(1), b.skip(1), c.skip(1));
    }
}

/// Every split text has a piece.
pub proof fn lemma_split_nonempty(s: Seq<char>, sep: char)
    ensures
        split(s, sep).len() > 0,
    decreases s.len(),
{
    if s.len() > 0 {
        lemma_split_nonempty(s.skip(1), sep);
    }
}

/// The piece in front of the first separator, then those behind it.
pub proof fn lemma_split_at(s: Seq<char>, sep: char, n: int)
    requires
        0 <= n <= s.len(),
        forall|i: int| 0 <= i < n ==> #[trigger] s[i] != sep,
        n < s.len() ==> s[n] == sep,
    ensures
        n == s.len() ==> split(s, sep) == seq![s],
        n < s.len() ==> split(s, sep) == seq![s.take(n)] + split(s.skip(n + 1), sep),
    decreases n,
{
    reveal_with_fuel(split, 2);
    if n == 0 {
        if s.len() == 0 {
            assert(s =~= Seq::<char>::empty());
        } else {
            assert(s.take(0) =~= Seq::<char>::empty());
        }
    } else {
        let t = s.skip(1);
        assert forall|i: int| 0 <= i < n - 1 implies #[trigger] t[i] != sep by {
            assert(t[i] == s[i + 1]);
        }
        lemma_split_at(t, sep, n - 1);
        if n == s.len() {
            assert(seq![s[0]] + t =~= s);
            assert(split(s, sep) =~= seq![s]);
        } else {
            assert(seq![s[0]] + t.take(n - 1) =~= s.take(n));
            assert(t.skip(n) =~= s.skip(n + 1));
            assert(split(s, sep) =~= seq![s.take(n)] + split(s.skip(n + 1), sep));
        }
    }
}

/// `String::push` appends the character.
pub assume_specification[ String::push ](s: &mut String, c: char)
    ensures
        final(s)@ == old(s)@.push(c),
;

/// The characters of `s`.
pub fn chars(s: &str) -> (r: Vec<char>)
    ensures
        r@ == s@,
{
    let mut r: Vec<char> = Vec::new();
    for c in it: s.chars()
        invariant
            r@ == it.seq().take(it.index()),
    {
        r.push(c);
    }
    assert(r@ =~= s@);
    r
}

/// The text of the characters.
pub fn string(v: &[char]) -> (r: String)
    ensures
        r@ == v@,
{
    let mut r = String::new();
    push_chars(&mut r, v);
    assert(r@ =~= v@);
    r
}

/// Append characters to a text.
pub fn push_chars(out: &mut String, v: &[char])
    ensures
        final(out)@ == old(out)@ + v@,
{
    let mut i: usize = 0;
    while i < v.len()
        invariant
            i <= v@.len(),
            out@ == old(out)@ + v@.take(i as int),
        decreases v@.len() - i,
    {
        out.push(v[i]);
        assert(v@.take(i as int + 1) =~= v@.take(i as int).push(v@[i as int]));
        i += 1;
    }
    assert(v@.take(i as int) =~= v@);
}

/// Append the characters of `s`.
pub fn push_str(out: &mut Vec<char>, s: &str)
    ensures
        final(out)@ == old(out)@ + s@,
{
    let mut v = chars(s);
    out.append(&mut v);
}

/// Append a number in decimal.
pub fn push_decimal(out: &mut String, n: u64)
    ensures
        final(out)@ == old(out)@ + crate::number::decimal(n as nat),
{
    let mut v: Vec<char> = Vec::new();
    crate::number::push_written(&mut v, n, 10);
    assert(v@ =~= crate::number::decimal(n as nat));
    push_chars(out, &v);
}

pub fn is_space_char(c: char) -> (r: bool)
    ensures
        r == is_space(c),
{
    ('\u{9}' <= c && c <= '\u{d}') || c == '\u{20}' || c == '\u{85}' || c == '\u{a0}' || c
        == '\u{1680}' || ('\u{2000}' <= c && c <= '\u{200a}') || c == '\u{2028}' || c == '\u{2029}'
        || c == '\u{202f}' || c == '\u{205f}' || c == '\u{3000}'
}

/// Whether some character is white space.
pub fn contains_space(s: &[char]) -> (r: bool)
    ensures
        r == has_space(s@),
{
    let mut i: usize = 0;
    while i < s.len()
        invariant
            i <= s@.len(),
            forall|j: int| 0 <= j < i ==> !is_space(#[trigger] s@[j]),
        decreases s@.len() - i,
    {
        if is_space_char(s[i]) {
            return true;
        }
        i += 1;
    }
    false
}

/// Without the white space around.
pub fn trim(s: &[char]) -> (r: &[char])
    ensures
        r@ == trimmed(s@),
        r@.len() <= s@.len(),
{
    let mut from: usize = 0;
    assert(s@.skip(0) =~= s@);
    while from < s.len() && is_space_char(s[from])
        invariant
            from <= s@.len(),
            trimmed_start(s@.skip(from as int)) == trimmed_start(s@),
        decreases s@.len() - from,
    {
        assert(s@.skip(from as int).skip(1) =~= s@.skip(from as int + 1));
        from += 1;
    }
    let ghost t = s@.skip(from as int);
    assert(trimmed_start(s@) == t);
    let mut to: usize = s.len();
    assert(s@.subrange(from as int, to as int) =~= t);
    while to > from && is_space_char(s[to - 1])
        invariant
            from <= to <= s@.len(),
            trimmed_end(s@.subrange(from as int, to as int)) == trimmed_end(t),
        decreases to,
    {
        let ghost u = s@.subrange(from as int, to as int);
        assert(u.last() == s@[to - 1]);
        assert(u.drop_last() =~= s@.subrange(from as int, to - 1));
        to -= 1;
    }
    assert(to > from ==> s@.subrange(from as int, to as int).last() == s@[to - 1]);
    vstd::slice::slice_subrange(s, from, to)
}

pub fn to_lower(c: char) -> (r: char)
    ensures
        r == lower(c),
{
    if 'A' <= c && c <= 'Z' {
        ascii::to_lower(c as u8) as char
    } else {
        c
    }
}

/// Every ASCII letter in lower case.
pub fn fold(s: &[char]) -> (r: Vec<char>)
    ensures
        r@ == folded(s@),
{
    let mut r: Vec<char> = Vec::new();
    let mut i: usize = 0;
    while i < s.len()
        invariant
            i <= s@.len(),
            r@ == folded(s@.take(i as int)),
        decreases s@.len() - i,
    {
        r.push(to_lower(s[i]));
        assert(folded(s@.take(i as int + 1)) =~= folded(s@.take(i as int)).push(lower(s@[i as int])));
        i += 1;
    }
    assert(s@.take(i as int) =~= s@);
    r
}

/// Whether both hold the same characters.
pub fn same(a: &[char], b: &[char]) -> (r: bool)
    ensures
        r == (a@ == b@),
{
    if a.len() != b.len() {
        return false;
    }
    let mut i: usize = 0;
    while i < a.len()
        invariant
            i <= a@.len() == b@.len(),
            forall|j: int| 0 <= j < i ==> a@[j] == b@[j],
        decreases a@.len() - i,
    {
        if a[i] != b[i] {
            assert(a@[i as int] != b@[i as int]);
            return false;
        }
        i += 1;
    }
    assert(a@ =~= b@);
    true
}

/// Whether the characters are those of `text`.
pub fn is(s: &[char], text: &str) -> (r: bool)
    ensures
        r == (s@ == text@),
{
    let t = chars(text);
    same(s, &t)
}

/// Whether `a` comes before `b`.
pub fn precedes(a: &[char], b: &[char]) -> (r: bool)
    ensures
        r == comes_before(a@, b@),
{
    let mut i: usize = 0;
    assert(a@.skip(0) =~= a@);
    assert(b@.skip(0) =~= b@);
    while i < a.len() && i < b.len()
        invariant
            i <= a@.len(),
            i <= b@.len(),
            comes_before(a@.skip(i as int), b@.skip(i as int)) == comes_before(a@, b@),
        decreases a@.len() - i,
    {
        assert(a@.skip(i as int).skip(1) =~= a@.skip(i as int + 1));
        assert(b@.skip(i as int).skip(1) =~= b@.skip(i as int + 1));
        if a[i] != b[i] {
            return a[i] < b[i];
        }
        i += 1;
    }
    i < b.len()
}

/// Where the first `c` is; the length where there is none.
pub fn find_char(s: &[char], c: char) -> (r: usize)
    ensures
        r <= s@.len(),
        forall|i: int| 0 <= i < r ==> #[trigger] s@[i] != c,
        r < s@.len() ==> s@[r as int] == c,
{
    let mut i: usize = 0;
    while i < s.len() && s[i] != c
        invariant
            i <= s@.len(),
            forall|j: int| 0 <= j < i ==> #[trigger] s@[j] != c,
        decreases s@.len() - i,
    {
        i += 1;
    }
    i
}

/// The texts of the parts.
pub open spec fn views(parts: Seq<String>) -> Seq<Seq<char>> {
    Seq::new(parts.len(), |i: int| parts[i]@)
}

/// The parts with `sep` between them.
pub fn join(parts: &Vec<String>, sep: &str) -> (r: String)
    ensures
        r@ == joined(views(parts@), sep@),
{
    let mut r = String::new();
    let ghost all = views(parts@);
    let mut i: usize = 0;
    assert(r@ =~= joined(all.take(0), sep@));
    while i < parts.len()
        invariant
            i <= parts@.len(),
            all == views(parts@),
            r@ == joined(all.take(i as int), sep@),
        decreases parts@.len() - i,
    {
        if i > 0 {
            r.append(sep);
        }
        r.append(parts[i].as_str());
        let ghost t = all.take(i as int + 1);
        assert(t.drop_last() =~= all.take(i as int));
        assert(t.last() == parts@[i as int]@);
        assert(r@ =~= joined(t, sep@));
        i += 1;
    }
    assert(all.take(i as int) =~= all);
    r
}

/// The characters as bytes, where they are all ASCII.
pub open spec fn narrowed(s: Seq<char>) -> Option<Seq<u8>> {
    if forall|i: int| 0 <= i < s.len() ==> (#[trigger] s[i]) as u32 <= 127 {
        Some(ascii::bytes(s))
    } else {
        None
    }
}

/// The characters as bytes, where they are all ASCII.
pub fn narrow(s: &[char]) -> (r: Option<Vec<u8>>)
    ensures
        match r {
            Some(v) => narrowed(s@) == Some(v@),
            None => narrowed(s@) is None,
        },
{
    let mut r: Vec<u8> = Vec::new();
    let mut i: usize = 0;
    while i < s.len()
        invariant
            i <= s@.len(),
            r@ == ascii::bytes(s@.take(i as int)),
            forall|j: int| 0 <= j < i ==> (#[trigger] s@[j]) as u32 <= 127,
        decreases s@.len() - i,
    {
        if s[i] as u32 > 127 {
            return None;
        }
        r.push(s[i] as u8);
        assert(ascii::bytes(s@.take(i as int + 1)) =~= ascii::bytes(s@.take(i as int)).push(
            s@[i as int] as u8,
        ));
        i += 1;
    }
    assert(s@.take(i as int) =~= s@);
    Some(r)
}

/// Which characters are blank, by their numbers.
pub proof fn law_which_characters_are_blank(c: char)
    ensures
        is_space(c) <==> {
            let n = c as u32;
            ||| 9 <= n <= 13
            ||| n == 32
            ||| n == 133
            ||| n == 160
            ||| n == 5760
            ||| 8192 <= n <= 8202
            ||| n == 8232
            ||| n == 8233
            ||| n == 8239
            ||| n == 8287
            ||| n == 12288
        },
        65 <= c as u32 <= 90 ==> lower(c) as u32 == c as u32 + 32,
        !(65 <= c as u32 <= 90) ==> lower(c) == c,
{
}

/// What is split at a separator and joined with it again is what it was.
pub proof fn law_the_pieces_of_a_text(a: Seq<char>, b: Seq<char>, sep: char)
    requires
        forall|i: int| 0 <= i < a.len() ==> #[trigger] a[i] != sep,
    ensures
        split(a, sep) == seq![a],
        split(a + seq![sep] + b, sep) == seq![a] + split(b, sep),
    decreases a.len(),
{
    if a.len() == 0 {
        assert(a =~= Seq::empty());
        assert(a + seq![sep] + b =~= seq![sep] + b);
        assert((seq![sep] + b).skip(1) =~= b);
    } else {
        let t = a.skip(1);
        assert(a[0] != sep);
        assert forall|i: int| 0 <= i < t.len() implies #[trigger] t[i] != sep by {
            assert(t[i] == a[i + 1]);
        }
        law_the_pieces_of_a_text(t, b, sep);
        assert(seq![a[0]] + t =~= a);
        assert((a + seq![sep] + b).skip(1) =~= t + seq![sep] + b);
        let s = a + seq![sep] + b;
        assert(s[0] == a[0]);
        assert(split(s, sep) =~= seq![a] + split(b, sep));
        assert(split(a, sep) =~= seq![a]);
    }
}

} // verus!
