//! Non-empty lists without duplicates, each kind under a rule of its own.

use std::str::FromStr;

use vstd::prelude::*;

use crate::text;

verus! {

/// What a list may hold.
pub trait ListItem: Copy {
    /// The item that `s` writes.
    spec fn reads(s: Seq<u8>) -> Option<Self>;

    /// The text that writes the item.
    spec fn item_text(self) -> Seq<char>;

    /// The item that `s` writes, or nothing.
    fn read(s: &[u8]) -> (r: Option<Self>)
        ensures
            r == Self::reads(s@),
    ;

    fn same(&self, other: &Self) -> (r: bool)
        ensures
            r == (*self == *other),
    ;

    /// Append the item's text.
    fn push_item(&self, out: &mut Vec<char>)
        ensures
            final(out)@ == old(out)@ + self.item_text(),
    ;
}

/// Which items one kind of list takes.
pub trait ListRule: Sized {
    type Item: ListItem;

    /// What an item is called in an error.
    spec fn noun() -> Seq<char>;

    /// Why the list does not take `item`, if so.
    spec fn refusal(item: Self::Item) -> Option<Seq<char>>;

    fn noun_text() -> (r: &'static str)
        ensures
            r@ == Self::noun(),
    ;

    /// Why the list does not take `item`, if so.
    fn refuse(item: &Self::Item) -> (r: Option<&'static str>)
        ensures
            match r {
                Some(reason) => Self::refusal(*item) == Some(reason@),
                None => Self::refusal(*item) is None,
            },
    ;
}

/// A non-empty, duplicate-free list of the items that `R` takes.
#[derive(Clone, PartialEq, Eq, Debug)]
pub struct UniqueList<R: ListRule> {
    pub items: Vec<R::Item>,
}

/// Why a list was not accepted.
#[derive(Clone, PartialEq, Eq, Debug)]
pub enum ListError<T> {
    /// It has no item.
    Empty { noun: String },
    /// One piece of the text writes no item.
    Invalid { noun: String, text: String },
    /// The rule does not take the item.
    Refused { noun: String, item: T, reason: String },
    /// The item is listed twice.
    Duplicate { noun: String, item: T },
}

/// The first position whose item the rule refuses or that repeats an earlier one; the length where
/// there is none.
pub open spec fn first_fault<R: ListRule>(items: Seq<R::Item>) -> nat
    decreases items.len(),
{
    if items.len() == 0 {
        0
    } else {
        let before = first_fault::<R>(items.drop_last());
        if before < items.len() - 1 || faulty::<R>(items, items.len() - 1) {
            before
        } else {
            items.len()
        }
    }
}

/// The item at `i` is refused, or equals one in front of it.
pub open spec fn faulty<R: ListRule>(items: Seq<R::Item>, i: int) -> bool {
    R::refusal(items[i]) is Some || repeats::<R>(items, i)
}

/// The item at `i` equals one in front of it.
pub open spec fn repeats<R: ListRule>(items: Seq<R::Item>, i: int) -> bool {
    exists|j: int| 0 <= j < i && #[trigger] items[j] == items[i]
}

/// What a list of `items` is: itself, where it is not empty and holds no fault.
pub open spec fn acceptable<R: ListRule>(items: Seq<R::Item>) -> bool {
    items.len() > 0 && first_fault::<R>(items) == items.len()
}

/// `e` is the fault of a list of `items`.
pub open spec fn is_fault<R: ListRule>(items: Seq<R::Item>, e: ListError<R::Item>) -> bool {
    let i: int = first_fault::<R>(items) as int;
    match e {
        ListError::Empty { noun } => noun@ == R::noun() && items.len() == 0,
        ListError::Invalid { .. } => false,
        ListError::Refused { noun, item, reason } => {
            &&& noun@ == R::noun()
            &&& i < items.len()
            &&& item == items[i]
            &&& R::refusal(item) == Some(reason@)
        },
        ListError::Duplicate { noun, item } => {
            &&& noun@ == R::noun()
            &&& i < items.len()
            &&& item == items[i]
            &&& R::refusal(item) is None
        },
    }
}

/// The item that a piece of text writes, white space around it aside.
pub open spec fn piece_item<R: ListRule>(piece: Seq<char>) -> Option<R::Item> {
    match text::narrowed(text::trimmed(piece)) {
        Some(s) => R::Item::reads(s),
        None => None,
    }
}

/// The first piece that writes no item; the number of pieces where each does.
pub open spec fn first_unread<R: ListRule>(pieces: Seq<Seq<char>>) -> nat
    decreases pieces.len(),
{
    if pieces.len() == 0 {
        0
    } else if piece_item::<R>(pieces[0]) is None {
        0
    } else {
        1 + first_unread::<R>(pieces.skip(1))
    }
}

/// The items that the pieces write.
pub open spec fn piece_items<R: ListRule>(pieces: Seq<Seq<char>>) -> Seq<R::Item> {
    Seq::new(pieces.len(), |i: int| piece_item::<R>(pieces[i])->0)
}

/// `e` is why the text lists nothing.
pub open spec fn is_text_fault<R: ListRule>(s: Seq<char>, e: ListError<R::Item>) -> bool {
    let pieces = text::split(s, ',');
    let i: int = first_unread::<R>(pieces) as int;
    if i < pieces.len() {
        e matches ListError::Invalid { noun, text } && noun@ == R::noun() && text@ == text::trimmed(
            pieces[i],
        )
    } else {
        is_fault::<R>(piece_items::<R>(pieces), e)
    }
}

proof fn lemma_first_fault<R: ListRule>(items: Seq<R::Item>, n: int)
    requires
        0 <= n <= items.len(),
        forall|i: int| 0 <= i < n ==> !faulty::<R>(items, i),
        n < items.len() ==> faulty::<R>(items, n),
    ensures
        first_fault::<R>(items) == n,
    decreases items.len(),
{
    if items.len() > 0 {
        let t = items.drop_last();
        assert forall|i: int| 0 <= i < t.len() implies faulty::<R>(t, i) == faulty::<R>(items, i) by {
            assert(t[i] == items[i]);
            if repeats::<R>(items, i) {
                let j: int = choose|j: int| 0 <= j < i && #[trigger] items[j] == items[i];
                assert(t[j] == t[i]);
            }
            if repeats::<R>(t, i) {
                let j: int = choose|j: int| 0 <= j < i && #[trigger] t[j] == t[i];
                assert(items[j] == items[i]);
            }
        }
        if n < items.len() {
            lemma_first_fault::<R>(t, n);
        } else {
            lemma_first_fault::<R>(t, n - 1);
            assert(!faulty::<R>(items, n - 1));
        }
    }
}

/// An acceptable list has no refused item and no duplicates.
pub proof fn law_list_is_unique<R: ListRule>(items: Seq<R::Item>)
    requires
        acceptable::<R>(items),
    ensures
        items.len() > 0,
        items.no_duplicates(),
        forall|i: int| 0 <= i < items.len() ==> R::refusal(#[trigger] items[i]) is None,
{
    lemma_no_fault::<R>(items);
    assert forall|i: int, j: int| 0 <= i < items.len() && 0 <= j < items.len() && i != j implies items[i]
        != items[j] by {
        if items[i] == items[j] {
            if i < j {
                assert(repeats::<R>(items, j));
                assert(faulty::<R>(items, j));
            } else {
                assert(repeats::<R>(items, i));
                assert(faulty::<R>(items, i));
            }
        }
    }
    assert forall|i: int| 0 <= i < items.len() implies R::refusal(#[trigger] items[i]) is None by {
        assert(!faulty::<R>(items, i));
    }
}

/// Two different items that the rule takes make a list.
pub proof fn lemma_two_items<R: ListRule>(a: R::Item, b: R::Item)
    requires
        R::refusal(a) is None,
        R::refusal(b) is None,
        a != b,
    ensures
        acceptable::<R>(seq![a, b]),
{
    lemma_first_fault::<R>(seq![a, b], 2);
}

proof fn lemma_no_fault<R: ListRule>(items: Seq<R::Item>)
    requires
        first_fault::<R>(items) == items.len(),
    ensures
        forall|i: int| 0 <= i < items.len() ==> !faulty::<R>(items, i),
    decreases items.len(),
{
    if items.len() > 0 {
        let t = items.drop_last();
        lemma_fault_bound::<R>(t);
        lemma_no_fault::<R>(t);
        assert forall|i: int| 0 <= i < items.len() implies !faulty::<R>(items, i) by {
            if i < t.len() {
                assert(!faulty::<R>(t, i));
                assert(t[i] == items[i]);
                if repeats::<R>(items, i) {
                    let j: int = choose|j: int| 0 <= j < i && #[trigger] items[j] == items[i];
                    assert(t[j] == t[i]);
                }
            }
        }
    }
}

proof fn lemma_fault_bound<R: ListRule>(items: Seq<R::Item>)
    ensures
        first_fault::<R>(items) <= items.len(),
    decreases items.len(),
{
    if items.len() > 0 {
        lemma_fault_bound::<R>(items.drop_last());
    }
}

proof fn lemma_first_unread<R: ListRule>(pieces: Seq<Seq<char>>, n: int)
    requires
        0 <= n <= pieces.len(),
        forall|i: int| 0 <= i < n ==> piece_item::<R>(#[trigger] pieces[i]) is Some,
        n < pieces.len() ==> piece_item::<R>(pieces[n]) is None,
    ensures
        first_unread::<R>(pieces) == n,
    decreases n,
{
    if n > 0 {
        let t = pieces.skip(1);
        assert forall|i: int| 0 <= i < n - 1 implies piece_item::<R>(#[trigger] t[i]) is Some by {
            assert(t[i] == pieces[i + 1]);
        }
        lemma_first_unread::<R>(t, n - 1);
    }
}

impl<R: ListRule> View for UniqueList<R> {
    type V = Seq<R::Item>;

    open spec fn view(&self) -> Seq<R::Item> {
        self.items@
    }
}

impl<R: ListRule> UniqueList<R> {
    /// The list is one that its rule accepts.
    pub open spec fn wf(&self) -> bool {
        acceptable::<R>(self@)
    }

    /// The list of `items`, where it is not empty, holds no duplicate and the rule takes each.
    pub fn try_from(items: Vec<R::Item>) -> (r: Result<Self, ListError<R::Item>>)
        ensures
            match r {
                Ok(list) => acceptable::<R>(items@) && list@ == items@,
                Err(e) => !acceptable::<R>(items@) && is_fault::<R>(items@, e),
            },
    {
        if items.len() == 0 {
            return Err(ListError::Empty { noun: R::noun_text().to_owned() });
        }
        let mut i: usize = 0;
        while i < items.len()
            invariant
                i <= items@.len(),
                forall|j: int| 0 <= j < i ==> !faulty::<R>(items@, j),
            decreases items@.len() - i,
        {
            let item: R::Item = items[i];
            match R::refuse(&item) {
                Some(reason) => {
                    assert(faulty::<R>(items@, i as int));
                    proof {
                        lemma_first_fault::<R>(items@, i as int);
                    }
                    return Err(
                        ListError::Refused {
                            noun: R::noun_text().to_owned(),
                            item,
                            reason: reason.to_owned(),
                        },
                    );
                },
                None => {},
            }
            let mut k: usize = 0;
            while k < i
                invariant
                    k <= i < items@.len(),
                    item == items@[i as int],
                    R::refusal(item) is None,
                    forall|j: int| 0 <= j < k ==> #[trigger] items@[j] != item,
                    forall|j: int| 0 <= j < i ==> !faulty::<R>(items@, j),
                decreases i - k,
            {
                if items[k].same(&item) {
                    assert(repeats::<R>(items@, i as int));
                    assert(faulty::<R>(items@, i as int));
                    proof {
                        lemma_first_fault::<R>(items@, i as int);
                    }
                    return Err(ListError::Duplicate { noun: R::noun_text().to_owned(), item });
                }
                k += 1;
            }
            assert(!faulty::<R>(items@, i as int));
            i += 1;
        }
        proof {
            lemma_first_fault::<R>(items@, items@.len() as int);
        }
        Ok(UniqueList { items })
    }

    /// How many items there are.
    pub fn len(&self) -> (r: usize)
        ensures
            r == self@.len(),
    {
        self.items.len()
    }

    /// Whether `item` is listed.
    pub fn contains(&self, item: &R::Item) -> (r: bool)
        ensures
            r == self@.contains(*item),
    {
        let mut i: usize = 0;
        while i < self.items.len()
            invariant
                i <= self@.len(),
                forall|j: int| 0 <= j < i ==> #[trigger] self@[j] != *item,
            decreases self@.len() - i,
        {
            if self.items[i].same(item) {
                assert(self@[i as int] == *item);
                return true;
            }
            i += 1;
        }
        false
    }

    /// Whether an item is in both lists.
    pub fn shares(&self, other: &Self) -> (r: bool)
        ensures
            r == shared(self@, other@),
    {
        let mut i: usize = 0;
        while i < self.items.len()
            invariant
                i <= self@.len(),
                forall|j: int| 0 <= j < i ==> !other@.contains(#[trigger] self@[j]),
            decreases self@.len() - i,
        {
            if other.contains(&self.items[i]) {
                assert(self@[i as int] == self.items@[i as int]);
                return true;
            }
            i += 1;
        }
        false
    }

    /// The same list again.
    pub fn copied(&self) -> (r: Self)
        ensures
            r@ == self@,
    {
        let mut items: Vec<R::Item> = Vec::new();
        let mut i: usize = 0;
        while i < self.items.len()
            invariant
                i <= self@.len(),
                items@ == self@.take(i as int),
            decreases self@.len() - i,
        {
            items.push(self.items[i]);
            assert(self@.take(i as int + 1) =~= self@.take(i as int).push(self@[i as int]));
            i += 1;
        }
        assert(items@ =~= self@);
        UniqueList { items }
    }
}

impl<R: ListRule> FromStr for UniqueList<R> {
    type Err = ListError<R::Item>;

    /// The list that comma-separated text writes.
    fn from_str(s: &str) -> (r: Result<Self, ListError<R::Item>>)
        ensures
            match r {
                Ok(list) => {
                    let pieces = text::split(s@, ',');
                    &&& first_unread::<R>(pieces) == pieces.len()
                    &&& acceptable::<R>(piece_items::<R>(pieces))
                    &&& list@ == piece_items::<R>(pieces)
                },
                Err(e) => is_text_fault::<R>(s@, e),
            },
    {
        let all = text::chars(s);
        let ghost pieces = text::split(s@, ',');
        let mut items: Vec<R::Item> = Vec::new();
        let mut rest: &[char] = &all;
        let mut done = false;
        proof {
            assert(pieces.skip(0) =~= pieces);
        }
        while !done
            invariant
                items@.len() <= pieces.len(),
                pieces == text::split(s@, ','),
                !done ==> text::split(rest@, ',') == pieces.skip(items@.len() as int),
                done ==> items@.len() == pieces.len(),
                forall|i: int|
                    0 <= i < items@.len() ==> piece_item::<R>(#[trigger] pieces[i]) == Some(
                        items@[i],
                    ),
            decreases pieces.len() - items@.len(),
        {
            let end: usize = text::find_char(rest, ',');
            let piece = vstd::slice::slice_subrange(rest, 0, end);
            let ghost n: int = items@.len() as int;
            proof {
                text::lemma_split_nonempty(rest@, ',');
                text::lemma_split_at(rest@, ',', end as int);
                assert(piece@ =~= rest@.take(end as int));
                assert(rest@.take(rest@.len() as int) =~= rest@);
                assert(pieces[n] == pieces.skip(n)[0]);
                assert(pieces[n] == piece@);
            }
            let trimmed = text::trim(piece);
            let item: Option<R::Item> = match text::narrow(trimmed) {
                Some(bytes) => R::Item::read(&bytes),
                None => None,
            };
            match item {
                Some(item) => items.push(item),
                None => {
                    proof {
                        lemma_first_unread::<R>(pieces, n);
                    }
                    return Err(
                        ListError::Invalid {
                            noun: R::noun_text().to_owned(),
                            text: text::string(trimmed),
                        },
                    );
                },
            }
            if end == rest.len() {
                done = true;
                assert(pieces.skip(n).len() == 1);
            } else {
                rest = vstd::slice::slice_subrange(rest, end + 1, rest.len());
                proof {
                    let r = text::split(rest@, ',');
                    assert(pieces.skip(n).skip(1) =~= pieces.skip(n + 1));
                    assert((seq![piece@] + r).skip(1) =~= r);
                }
            }
        }
        proof {
            lemma_first_unread::<R>(pieces, pieces.len() as int);
            assert(items@ =~= piece_items::<R>(pieces));
        }
        UniqueList::try_from(items)
    }
}

/// Some item is in both.
pub open spec fn shared<T>(a: Seq<T>, b: Seq<T>) -> bool {
    exists|i: int| 0 <= i < a.len() && b.contains(#[trigger] a[i])
}

/// Sharing an item goes both ways.
pub proof fn law_sharing_is_symmetric<T>(a: Seq<T>, b: Seq<T>)
    ensures
        shared(a, b) == shared(b, a),
{
    if shared(a, b) {
        let i: int = choose|i: int| 0 <= i < a.len() && b.contains(#[trigger] a[i]);
        let j: int = choose|j: int| 0 <= j < b.len() && #[trigger] b[j] == a[i];
        assert(a.contains(b[j]));
    }
    if shared(b, a) {
        let i: int = choose|i: int| 0 <= i < b.len() && a.contains(#[trigger] b[i]);
        let j: int = choose|j: int| 0 <= j < a.len() && #[trigger] a[j] == b[i];
        assert(b.contains(a[j]));
    }
}

/// A list is taken where it is not empty, the rule refuses none of its items, and no two are equal.
pub proof fn law_which_lists_are_taken<R: ListRule>(items: Seq<R::Item>)
    ensures
        acceptable::<R>(items) <==> {
            &&& items.len() > 0
            &&& items.no_duplicates()
            &&& forall|i: int| 0 <= i < items.len() ==> R::refusal(#[trigger] items[i]) is None
        },
{
    if acceptable::<R>(items) {
        law_list_is_unique::<R>(items);
    }
    if items.len() > 0 && items.no_duplicates() && (forall|i: int|
        0 <= i < items.len() ==> R::refusal(#[trigger] items[i]) is None) {
        lemma_first_fault::<R>(items, items.len() as int);
    }
}

} // verus!
