//! The TOML document of a configuration: its values, and where in the text each stands.

use std::borrow::Cow;

use toml::de::DeValue;
use vstd::prelude::*;

use crate::number;
use crate::text;

verus! {

/// The bytes of a document from one on and before another.
#[derive(Clone, Copy, PartialEq, Eq, Structural, Debug)]
pub struct Span {
    pub start: usize,
    pub end: usize,
}

/// A value of a document: the bytes it was read from, and what is said of it where nothing may stand.
#[derive(Debug)]
pub struct Value {
    pub span: Span,
    pub refused: String,
    pub item: Item,
}

/// A key of a table with its value, and the bytes that the key was read from.
#[derive(Debug)]
pub struct Pair {
    pub key: String,
    pub key_span: Span,
    pub value: Value,
}

/// What a [`Value`] is.
#[derive(Debug)]
pub enum Item {
    Text(String),
    /// The digits, behind a sign that may be left out, and their base.
    Integer(String, u32),
    Boolean(bool),
    Array(Vec<Value>),
    Table(Vec<Pair>),
    /// A date or a time, as it is written out.
    Date(String),
    /// A float: the schema takes none.
    Other,
}

/// What a [`Value`] says.
pub struct Doc {
    pub span: Span,
    pub refused: Seq<char>,
    pub kind: Kind,
}

/// What a [`Pair`] says.
pub struct Field {
    pub key: Seq<char>,
    pub key_span: Span,
    pub value: Doc,
}

/// What an [`Item`] says.
pub enum Kind {
    Text(Seq<char>),
    Integer(Seq<char>, u32),
    Boolean(bool),
    Array(Seq<Doc>),
    Table(Seq<Field>),
    Date(Seq<char>),
    Other,
}

/// A value that stands for none.
pub open spec fn no_doc() -> Doc {
    Doc { span: Span { start: 0, end: 0 }, refused: Seq::empty(), kind: Kind::Other }
}

/// What a value says.
pub open spec fn doc(v: Value) -> Doc
    decreases v,
{
    Doc {
        span: v.span,
        refused: v.refused@,
        kind: match v.item {
            Item::Text(s) => Kind::Text(s@),
            Item::Integer(s, base) => Kind::Integer(s@, base),
            Item::Boolean(b) => Kind::Boolean(b),
            Item::Array(items) => Kind::Array(
                Seq::new(
                    items@.len(),
                    |i: int|
                        if 0 <= i < items@.len() {
                            doc(items@[i])
                        } else {
                            no_doc()
                        },
                ),
            ),
            Item::Table(pairs) => Kind::Table(
                Seq::new(
                    pairs@.len(),
                    |i: int|
                        if 0 <= i < pairs@.len() {
                            Field {
                                key: pairs@[i].key@,
                                key_span: pairs@[i].key_span,
                                value: doc(pairs@[i].value),
                            }
                        } else {
                            Field {
                                key: Seq::empty(),
                                key_span: Span { start: 0, end: 0 },
                                value: no_doc(),
                            }
                        },
                ),
            ),
            Item::Date(s) => Kind::Date(s@),
            Item::Other => Kind::Other,
        },
    }
}

impl View for Value {
    type V = Doc;

    open spec fn view(&self) -> Doc {
        doc(*self)
    }
}

impl Value {
    /// A value that says the same.
    pub fn copied(&self) -> (r: Value)
        ensures
            r@ == self@,
        decreases *self,
    {
        let item = match &self.item {
            Item::Text(s) => Item::Text(s.as_str().to_owned()),
            Item::Integer(s, base) => Item::Integer(s.as_str().to_owned(), *base),
            Item::Boolean(b) => Item::Boolean(*b),
            Item::Array(items) => {
                let mut out: Vec<Value> = Vec::new();
                let mut i: usize = 0;
                while i < items.len()
                    invariant
                        i <= items@.len() == self.item->Array_0@.len(),
                        self.item == Item::Array(*items),
                        out@.len() == i,
                        forall|j: int| 0 <= j < i ==> (#[trigger] out@[j])@ == items@[j]@,
                    decreases items@.len() - i,
                {
                    out.push(items[i].copied());
                    i += 1;
                }
                Item::Array(out)
            },
            Item::Table(pairs) => {
                let mut out: Vec<Pair> = Vec::new();
                let mut i: usize = 0;
                while i < pairs.len()
                    invariant
                        i <= pairs@.len() == self.item->Table_0@.len(),
                        self.item == Item::Table(*pairs),
                        out@.len() == i,
                        forall|j: int| 0 <= j < i ==> (#[trigger] out@[j])@ == pairs@[j]@,
                    decreases pairs@.len() - i,
                {
                    let value = pairs[i].value.copied();
                    let key = pairs[i].key.as_str().to_owned();
                    out.push(Pair { key, key_span: pairs[i].key_span, value });
                    i += 1;
                }
                Item::Table(out)
            },
            Item::Date(s) => Item::Date(s.as_str().to_owned()),
            Item::Other => Item::Other,
        };
        let r = Value { span: self.span, refused: self.refused.as_str().to_owned(), item };
        proof {
            if self.item is Array {
                assert(r@.kind->Array_0 =~= self@.kind->Array_0);
            }
            if self.item is Table {
                let a = self.item->Table_0@;
                let b = r.item->Table_0@;
                assert forall|j: int| 0 <= j < a.len() implies #[trigger] r@.kind->Table_0[j]
                    == self@.kind->Table_0[j] by {
                    assert(b[j]@ == a[j]@);
                }
                assert(r@.kind->Table_0 =~= self@.kind->Table_0);
            }
        }
        r
    }
}

impl View for Pair {
    type V = Field;

    open spec fn view(&self) -> Field {
        Field { key: self.key@, key_span: self.key_span, value: self.value@ }
    }
}

/// What the values of an array say.
pub open spec fn array(s: Seq<Value>) -> Seq<Doc> {
    Seq::new(s.len(), |i: int| s[i]@)
}

/// What the pairs of a table say.
pub open spec fn table(t: Seq<Pair>) -> Seq<Field> {
    Seq::new(t.len(), |i: int| t[i]@)
}

/// `toml::de::DeValue`, a parsed value.
#[verifier::external_type_specification]
#[verifier::external_body]
pub struct ExDeValue<'i>(DeValue<'i>);

/// `toml::Spanned`, a value with the bytes it was read from.
#[verifier::external_type_specification]
#[verifier::external_body]
#[verifier::reject_recursive_types(T)]
pub struct ExSpanned<T>(toml::Spanned<T>);

/// What a parsed value holds, its arrays and tables to their full depth, and where each stands.
pub uninterp spec fn toml_doc(v: toml::Spanned<DeValue<'_>>) -> Doc;

/// What a parsed key holds, and where it stands.
pub uninterp spec fn toml_key(k: toml::Spanned<Cow<'_, str>>) -> (Seq<char>, Span);

/// What is said of a parsed value where nothing may stand.
pub uninterp spec fn toml_refused(v: toml::Spanned<DeValue<'_>>) -> Seq<char>;

/// What `toml::de::DeTable::parse` reads from a text: the table, or its error's message.
pub uninterp spec fn toml_parsed(text: Seq<char>) -> Result<Doc, Seq<char>>;

/// One level of a parsed value.
pub enum Node<'a> {
    Text(String),
    Integer(String, u32),
    Boolean(bool),
    Array(Vec<toml::Spanned<DeValue<'a>>>),
    Table(Vec<(toml::Spanned<Cow<'a, str>>, toml::Spanned<DeValue<'a>>)>),
    Date(String),
    Other,
}

/// What the values of an array hold.
pub open spec fn item_docs(items: Seq<toml::Spanned<DeValue<'_>>>) -> Seq<Doc> {
    Seq::new(items.len(), |i: int| toml_doc(items[i]))
}

/// What the keys and values of a table hold.
pub open spec fn field_docs(
    fields: Seq<(toml::Spanned<Cow<'_, str>>, toml::Spanned<DeValue<'_>>)>,
) -> Seq<Field> {
    Seq::new(
        fields.len(),
        |i: int|
            Field {
                key: toml_key(fields[i].0).0,
                key_span: toml_key(fields[i].0).1,
                value: toml_doc(fields[i].1),
            },
    )
}

/// Reads a value as serde's unit, `()`, through `toml::de::ValueDeserializer`, and takes the message
/// of the error. No value is a unit, so the message says what was found, and the number or the text
/// that it is, or of a number that it is too large: a function of the value alone.
#[verifier::external_body]
fn refuse(v: &toml::Spanned<DeValue<'_>>) -> (r: String)
    ensures
        r@ == toml_refused(*v),
{
    let read: Result<(), toml::de::Error> = serde::Deserialize::deserialize(
        toml::de::ValueDeserializer::from(v.clone()),
    );
    match read {
        Ok(()) => String::new(),
        Err(e) => e.message().to_owned(),
    }
}

/// Tells the variants of `toml::de::DeValue` apart, and where the value stands. An array's items come
/// in its order, a table's fields in the order in which the table is walked; an integer comes as its
/// text and radix, a date or a time as it is displayed, and of a float nothing is kept.
#[verifier::external_body]
fn open_value<'a>(v: toml::Spanned<DeValue<'a>>) -> (r: (Span, Node<'a>))
    ensures
        toml_doc(v) == (Doc {
            span: r.0,
            refused: toml_refused(v),
            kind: match r.1 {
                Node::Text(s) => Kind::Text(s@),
                Node::Integer(s, base) => Kind::Integer(s@, base),
                Node::Boolean(b) => Kind::Boolean(b),
                Node::Array(items) => Kind::Array(item_docs(items@)),
                Node::Table(fields) => Kind::Table(field_docs(fields@)),
                Node::Date(s) => Kind::Date(s@),
                Node::Other => Kind::Other,
            },
        }),
{
    let span = Span { start: v.span().start, end: v.span().end };
    let node = match v.into_inner() {
        DeValue::String(s) => Node::Text(s.into_owned()),
        DeValue::Integer(n) => Node::Integer(n.as_str().to_owned(), n.radix()),
        DeValue::Boolean(b) => Node::Boolean(b),
        DeValue::Array(items) => Node::Array(items.into_iter().collect()),
        DeValue::Table(t) => Node::Table(t.into_iter().collect()),
        DeValue::Datetime(d) => Node::Date(d.to_string()),
        DeValue::Float(_) => Node::Other,
    };
    (span, node)
}

/// Takes the text out of a key's `toml::Spanned`, and where it stands.
#[verifier::external_body]
fn open_key(k: toml::Spanned<Cow<'_, str>>) -> (r: (String, Span))
    ensures
        toml_key(k) == (r.0@, r.1),
{
    let span = Span { start: k.span().start, end: k.span().end };
    (k.into_inner().into_owned(), span)
}

/// Calls `toml::de::DeTable::parse`. It reads the whole text; the result is a function of the text
/// alone, an error taken by its message.
#[verifier::external_body]
fn read_toml<'a>(text: &'a str) -> (r: Result<toml::Spanned<DeValue<'a>>, String>)
    ensures
        match r {
            Ok(v) => toml_parsed(text@) == Ok::<_, Seq<char>>(toml_doc(v)),
            Err(message) => toml_parsed(text@) == Err::<Doc, _>(message@),
        },
{
    match toml::de::DeTable::parse(text) {
        Ok(t) => Ok(toml::Spanned::new(t.span(), DeValue::Table(t.into_inner()))),
        Err(e) => Err(e.to_string()),
    }
}

/// The value that a parsed value holds.
fn plain(v: toml::Spanned<DeValue<'_>>) -> (r: Value)
    ensures
        r@ == toml_doc(v),
    decreases toml_doc(v),
{
    let ghost whole = toml_doc(v);
    let refused = refuse(&v);
    let (span, node) = open_value(v);
    assert(decreases_to!(whole => whole.kind));
    match node {
        Node::Text(s) => Value { span, refused, item: Item::Text(s) },
        Node::Integer(s, base) => Value { span, refused, item: Item::Integer(s, base) },
        Node::Boolean(b) => Value { span, refused, item: Item::Boolean(b) },
        Node::Array(items) => {
            let ghost docs = item_docs(items@);
            let mut out: Vec<Value> = Vec::new();
            let mut rest = items;
            while rest.len() > 0
                invariant
                    toml_doc(v) == whole,
                    whole.kind == Kind::Array(docs),
                    out@.len() + rest@.len() == docs.len(),
                    forall|i: int| 0 <= i < out@.len() ==> (#[trigger] out@[i])@ == docs[i],
                    forall|i: int|
                        0 <= i < rest@.len() ==> toml_doc(#[trigger] rest@[i]) == docs[out@.len() + i],
                decreases rest@.len(),
            {
                let ghost before = rest@;
                let item = rest.remove(0);
                assert(toml_doc(item) == docs[out@.len() as int]);
                assert(decreases_to!(whole => whole.kind));
                assert(decreases_to!(whole.kind => whole.kind->Array_0));
                assert(decreases_to!(docs => docs[out@.len() as int]));
                let value = plain(item);
                assert forall|i: int| 0 <= i < rest@.len() implies toml_doc(#[trigger] rest@[i])
                    == docs[out@.len() + 1 + i] by {
                    assert(rest@[i] == before[i + 1]);
                }
                out.push(value);
            }
            let r = Value { span, refused, item: Item::Array(out) };
            assert(r@.kind->Array_0 =~= docs);
            r
        },
        Node::Table(fields) => {
            let ghost docs = field_docs(fields@);
            let mut out: Vec<Pair> = Vec::new();
            let mut rest = fields;
            while rest.len() > 0
                invariant
                    toml_doc(v) == whole,
                    whole.kind == Kind::Table(docs),
                    out@.len() + rest@.len() == docs.len(),
                    forall|i: int| 0 <= i < out@.len() ==> (#[trigger] out@[i])@ == docs[i],
                    forall|i: int|
                        0 <= i < rest@.len() ==> field_docs(seq![#[trigger] rest@[i]])[0]
                            == docs[out@.len() + i],
                decreases rest@.len(),
            {
                let ghost before = rest@;
                assert(field_docs(seq![rest@[0]])[0] == docs[out@.len() as int]);
                let (name, item) = rest.remove(0);
                let (key, key_span) = open_key(name);
                let ghost field = docs[out@.len() as int];
                assert(field.value == toml_doc(item));
                assert(decreases_to!(whole => whole.kind));
                assert(decreases_to!(whole.kind => whole.kind->Table_0));
                assert(decreases_to!(docs => docs[out@.len() as int]));
                assert(decreases_to!(field => field.value));
                let value = plain(item);
                assert forall|i: int| 0 <= i < rest@.len() implies field_docs(
                    seq![#[trigger] rest@[i]],
                )[0] == docs[out@.len() + 1 + i] by {
                    assert(rest@[i] == before[i + 1]);
                }
                out.push(Pair { key, key_span, value });
            }
            let r = Value { span, refused, item: Item::Table(out) };
            assert(r@.kind->Table_0 =~= docs);
            r
        },
        Node::Date(s) => Value { span, refused, item: Item::Date(s) },
        Node::Other => Value { span, refused, item: Item::Other },
    }
}

/// The document that a text writes in TOML, or what is wrong with it.
pub fn parse_document(text: &str) -> (r: Result<Value, String>)
    ensures
        match r {
            Ok(v) => toml_parsed(text@) == Ok::<_, Seq<char>>(v@),
            Err(message) => toml_parsed(text@) == Err::<Doc, _>(message@),
        },
{
    match read_toml(text) {
        Ok(v) => Ok(plain(v)),
        Err(message) => Err(message),
    }
}

/// How many bytes a character takes in UTF-8.
#[verifier::allow_in_spec]
pub fn utf8_len(c: char) -> (r: usize)
    returns
        (if (c as u32) < 0x80 {
            1usize
        } else if (c as u32) < 0x800 {
            2usize
        } else if (c as u32) < 0x1_0000 {
            3usize
        } else {
            4usize
        }),
{
    if (c as u32) < 0x80 {
        1
    } else if (c as u32) < 0x800 {
        2
    } else if (c as u32) < 0x1_0000 {
        3
    } else {
        4
    }
}

/// How many characters start before a byte of the text.
pub open spec fn chars_before(s: Seq<char>, at: int) -> nat
    decreases s.len(),
{
    if s.len() == 0 || at <= 0 {
        0
    } else {
        1 + chars_before(s.skip(1), at - utf8_len(s[0]))
    }
}

/// The line, from 1, that is reached behind a text.
pub open spec fn line(s: Seq<char>) -> nat
    decreases s.len(),
{
    if s.len() == 0 {
        1
    } else if s.last() == '\n' {
        line(s.drop_last()) + 1
    } else {
        line(s.drop_last())
    }
}

/// The column, in characters from 1, that is reached behind a text.
pub open spec fn column(s: Seq<char>) -> nat
    decreases s.len(),
{
    if s.len() == 0 || s.last() == '\n' {
        1
    } else {
        column(s.drop_last()) + 1
    }
}

/// Where the line ends that the character `at` stands in.
pub open spec fn line_end(s: Seq<char>, at: int) -> int
    decreases s.len() - at,
{
    if at >= s.len() || s[at] == '\n' {
        at
    } else {
        line_end(s, at + 1)
    }
}

/// How many bytes a text takes in UTF-8.
pub open spec fn width(s: Seq<char>) -> nat
    decreases s.len(),
{
    if s.len() == 0 {
        0
    } else {
        width(s.drop_last()) + utf8_len(s.last()) as nat
    }
}

/// A character, `n` times over.
pub open spec fn repeated(c: char, n: nat) -> Seq<char> {
    Seq::new(n, |i: int| c)
}

/// How many marks stand under a line, of which a span starts behind `before` characters: one for each
/// byte of the span that the line still has, and at least one.
pub open spec fn marks(span: Span, content: Seq<char>, before: nat) -> nat {
    let bytes: int = span.end - span.start;
    let room: int = width(content) - before;
    let least: int = if bytes < room {
        bytes
    } else {
        room
    };
    if least < 1 {
        1
    } else {
        least as nat
    }
}

/// A message that says at which line and column it applies, and shows the line with its part marked.
pub open spec fn located(s: Seq<char>, span: Span, what: Seq<char>) -> Seq<char> {
    let at: int = chars_before(s, span.start as int) as int;
    let row: Seq<char> = number::decimal(line(s.take(at)));
    let col: nat = column(s.take(at));
    let content: Seq<char> = s.subrange(at - col + 1, line_end(s, at));
    let gutter: Seq<char> = repeated(' ', row.len() + 1);
    "TOML parse error at line "@ + row + ", column "@ + number::decimal(col) + "\n"@ + gutter + "|\n"@
        + row + " | "@ + content + "\n"@ + gutter + "|"@ + repeated(' ', col) + repeated(
        '^',
        marks(span, content, (col - 1) as nat),
    ) + "\n"@ + what + "\n"@
}

/// Append a count of characters, which may be one more than the largest length.
fn push_count(out: &mut String, n: u128)
    requires
        n <= usize::MAX + 1,
    ensures
        final(out)@ == old(out)@ + number::decimal(n as nat),
{
    if n >= 10 {
        text::push_decimal(out, (n / 10) as u64);
    }
    out.push(number::digit_of((n % 10) as u64));
    assert(out@ =~= old(out)@ + number::decimal(n as nat));
}

/// Append a character, `n` times over.
fn push_repeated(out: &mut String, c: char, n: u128)
    ensures
        final(out)@ == old(out)@ + repeated(c, n as nat),
{
    let mut left: u128 = n;
    while left > 0
        invariant
            left <= n,
            out@ =~= old(out)@ + repeated(c, (n - left) as nat),
        decreases left,
    {
        out.push(c);
        left -= 1;
    }
    assert(out@ =~= old(out)@ + repeated(c, n as nat));
}

/// Where a place stands: how many characters are before it, on which line, and at which column.
fn place(s: &str, all: &Vec<char>, at: usize) -> (r: (usize, u128, u128))
    requires
        all@ == s@,
    ensures
        r.0 == chars_before(s@, at as int),
        r.0 <= s@.len(),
        r.1 == line(s@.take(r.0 as int)),
        r.2 == column(s@.take(r.0 as int)),
        1 <= r.1 <= r.0 + 1,
        1 <= r.2 <= r.0 + 1,
{
    let mut n: usize = 0;
    let mut bytes: usize = 0;
    let mut lines: u128 = 1;
    let mut columns: u128 = 1;
    assert(s@.skip(0) =~= s@);
    assert(all.len() == all@.len());
    while n < all.len() && bytes < at
        invariant
            all@ == s@,
            n <= all@.len() <= usize::MAX,
            bytes <= at,
            chars_before(s@, at as int) == n + chars_before(s@.skip(n as int), at - bytes),
            bytes >= at ==> chars_before(s@.skip(n as int), at - bytes) == 0,
            lines == line(s@.take(n as int)),
            columns == column(s@.take(n as int)),
            1 <= lines <= n + 1,
            1 <= columns <= n + 1,
        decreases all@.len() - n,
    {
        let c: char = all[n];
        let ghost rest = s@.skip(n as int);
        assert(rest[0] == c);
        assert(rest.skip(1) =~= s@.skip(n as int + 1));
        assert(s@.take(n as int + 1).drop_last() =~= s@.take(n as int));
        let step: usize = utf8_len(c);
        assert(chars_before(rest, at - bytes) == 1 + chars_before(rest.skip(1), at - bytes - step));
        assert(chars_before(rest.skip(1), 0) == 0);
        bytes = if step < at - bytes {
            bytes + step
        } else {
            at
        };
        if c == '\n' {
            lines += 1;
            columns = 1;
        } else {
            columns += 1;
        }
        n += 1;
    }
    (n, lines, columns)
}

/// See [`marks`].
fn count_marks(span: Span, content: &[char], before: u128) -> (r: u128)
    ensures
        r == marks(span, content@, before as nat),
{
    let mut wide: u128 = 0;
    let mut i: usize = 0;
    assert(content.len() == content@.len());
    while i < content.len()
        invariant
            i <= content@.len() <= usize::MAX,
            wide == width(content@.take(i as int)),
            wide <= 4 * i,
        decreases content@.len() - i,
    {
        assert(content@.take(i as int + 1).drop_last() =~= content@.take(i as int));
        wide += utf8_len(content[i]) as u128;
        i += 1;
    }
    assert(content@.take(i as int) =~= content@);
    let bytes: u128 = if span.start < span.end {
        (span.end - span.start) as u128
    } else {
        0
    };
    let room: u128 = if before < wide {
        wide - before
    } else {
        0
    };
    let least: u128 = if bytes < room {
        bytes
    } else {
        room
    };
    if least < 1 {
        1
    } else {
        least
    }
}

/// See [`located`].
pub fn locate(s: &str, span: Span, what: &str) -> (r: String)
    ensures
        r@ == located(s@, span, what@),
{
    let all = text::chars(s);
    let (at, lines, columns) = place(s, &all, span.start);
    let first: usize = at - (columns - 1) as usize;
    let mut last: usize = at;
    while last < all.len() && all[last] != '\n'
        invariant
            all@ == s@,
            at <= last <= all@.len(),
            line_end(s@, at as int) == line_end(s@, last as int),
        decreases all@.len() - last,
    {
        last += 1;
    }
    let content: &[char] = vstd::slice::slice_subrange(all.as_slice(), first, last);
    let mut row = String::new();
    push_count(&mut row, lines);
    let gutter: u128 = text::chars(row.as_str()).len() as u128 + 1;
    let mut r = "TOML parse error at line ".to_owned();
    r.append(row.as_str());
    r.append(", column ");
    push_count(&mut r, columns);
    r.append("\n");
    push_repeated(&mut r, ' ', gutter);
    r.append("|\n");
    r.append(row.as_str());
    r.append(" | ");
    text::push_chars(&mut r, content);
    r.append("\n");
    push_repeated(&mut r, ' ', gutter);
    r.append("|");
    push_repeated(&mut r, ' ', columns);
    push_repeated(&mut r, '^', count_marks(span, content, columns - 1));
    r.append("\n");
    r.append(what);
    r.append("\n");
    r
}

/// No character of the text ends a line.
pub open spec fn one_line(s: Seq<char>) -> bool {
    forall|i: int| 0 <= i < s.len() ==> #[trigger] s[i] != '\n'
}

/// A place is in the line behind the last end of one in front of it, and in the column behind what stands
/// in front of it there; the line ends where the next end is.
pub proof fn law_where_a_place_is(before: Seq<char>, here: Seq<char>, rest: Seq<char>)
    requires
        one_line(here),
    ensures
        line(here) == 1,
        column(here) == here.len() + 1,
        line(before + seq!['\n'] + here) == line(before) + 1,
        column(before + seq!['\n'] + here) == here.len() + 1,
        line_end(here, 0) == here.len(),
        line_end(here + seq!['\n'] + rest, 0) == here.len(),
    decreases here.len(),
{
    let s = before + seq!['\n'] + here;
    lemma_line_end(here, 0, here.len() as int);
    let t = here + seq!['\n'] + rest;
    assert forall|i: int| 0 <= i < here.len() implies #[trigger] t[i] != '\n' by {
        assert(t[i] == here[i]);
    }
    lemma_line_end(t, 0, here.len() as int);
    if here.len() == 0 {
        assert(s.last() == '\n');
        assert(s.drop_last() =~= before);
    } else {
        let less = here.drop_last();
        assert forall|i: int| 0 <= i < less.len() implies #[trigger] less[i] != '\n' by {
            assert(less[i] == here[i]);
        }
        assert(here.last() == here[here.len() - 1]);
        law_where_a_place_is(before, less, rest);
        assert(s.last() == here.last());
        assert(s.drop_last() =~= before + seq!['\n'] + less);
    }
}

proof fn lemma_line_end(s: Seq<char>, at: int, end: int)
    requires
        0 <= at <= end <= s.len(),
        forall|i: int| at <= i < end ==> #[trigger] s[i] != '\n',
        end < s.len() ==> s[end] == '\n',
    ensures
        line_end(s, at) == end,
    decreases end - at,
{
    if at < end {
        lemma_line_end(s, at + 1, end);
    }
}

/// A byte offset is behind as many characters as the text in front of it has.
pub proof fn law_a_place_counts_characters(before: Seq<char>, rest: Seq<char>)
    ensures
        chars_before(before + rest, width(before) as int) == before.len(),
        width(before) >= before.len(),
        width(before) <= 4 * before.len(),
    decreases before.len(),
{
    lemma_width_front(before);
    if before.len() == 0 {
        assert(before + rest =~= rest);
    } else {
        let t = before.skip(1);
        law_a_place_counts_characters(t, rest);
        assert((before + rest).skip(1) =~= t + rest);
        assert((before + rest)[0] == before[0]);
    }
}

proof fn lemma_width_front(s: Seq<char>)
    ensures
        s.len() > 0 ==> width(s) == utf8_len(s[0]) + width(s.skip(1)),
    decreases s.len(),
{
    if s.len() > 1 {
        let t = s.drop_last();
        lemma_width_front(t);
        assert(t.skip(1) =~= s.skip(1).drop_last());
        assert(s.skip(1).last() == s.last());
        assert(t[0] == s[0]);
    } else if s.len() == 1 {
        assert(s.drop_last() =~= Seq::empty());
        assert(s.skip(1) =~= Seq::empty());
    }
}

/// The marks are under the bytes of the span that the line still has, and at least one.
pub proof fn law_how_much_is_marked(span: Span, content: Seq<char>, before: nat)
    ensures
        marks(span, content, before) >= 1,
        span.end - span.start >= 1 && span.end - span.start <= width(content) - before ==> marks(
            span,
            content,
            before,
        ) == span.end - span.start,
        width(content) - before >= 1 && span.end - span.start > width(content) - before ==> marks(
            span,
            content,
            before,
        ) == width(content) - before,
{
}

/// What is said of a place names its line and column, counted from 1, and shows the whole line it is in.
#[verifier::rlimit(40)]
pub proof fn law_what_is_said_of_a_place(
    above: Seq<char>,
    left: Seq<char>,
    right: Seq<char>,
    below: Seq<char>,
    end: usize,
    what: Seq<char>,
)
    requires
        one_line(left),
        one_line(right),
        above.len() == 0 || above.last() == '\n',
        below.len() == 0 || below[0] == '\n',
        width(above + left) <= usize::MAX,
    ensures
        ({
            let s = above + left + right + below;
            let span = Span { start: width(above + left) as usize, end };
            let row = number::decimal(line(above));
            let gutter = repeated(' ', row.len() + 1);
            located(s, span, what) == "TOML parse error at line "@ + row + ", column "@
                + number::decimal(left.len() + 1) + "\n"@ + gutter + "|\n"@ + row + " | "@ + (left
                + right) + "\n"@ + gutter + "|"@ + repeated(' ', left.len() + 1) + repeated(
                '^',
                marks(span, left + right, left.len()),
            ) + "\n"@ + what + "\n"@
        }),
{
    let s = above + left + right + below;
    let front = above + left;
    let span = Span { start: width(front) as usize, end };
    law_a_place_counts_characters(front, right + below);
    assert(s =~= front + (right + below));
    let at: int = front.len() as int;
    assert(s.take(at) =~= front);
    lemma_place_in_line(above, left);
    let stop: int = at + right.len();
    assert forall|i: int| at <= i < stop implies #[trigger] s[i] != '\n' by {
        assert(s[i] == right[i - at]);
    }
    if stop < s.len() {
        assert(s[stop] == below[0]);
    }
    lemma_line_end(s, at, stop);
    assert(s.subrange(at - left.len(), stop) =~= left + right);
}

proof fn lemma_place_in_line(above: Seq<char>, left: Seq<char>)
    requires
        one_line(left),
        above.len() == 0 || above.last() == '\n',
    ensures
        line(above + left) == line(above),
        column(above + left) == left.len() + 1,
    decreases left.len(),
{
    if left.len() == 0 {
        assert(above + left =~= above);
    } else {
        let less = left.drop_last();
        assert forall|i: int| 0 <= i < less.len() implies #[trigger] less[i] != '\n' by {
            assert(less[i] == left[i]);
        }
        assert(left.last() == left[left.len() - 1]);
        lemma_place_in_line(above, less);
        let s = above + left;
        assert(s.last() == left.last());
        assert(s.drop_last() =~= above + less);
    }
}

} // verus!
