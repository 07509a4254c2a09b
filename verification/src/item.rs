//! The values a cron field expands to.
use vstd::prelude::*;

verus! {

/// One expanded value in a field.
///
/// Fields are sorted as their values are written (`"*" < digits < "l"`):
/// `Star < Num < Last`, with `Num` compared numerically. The variant order
/// gives the derived `Ord` that order.
#[derive(Clone, Copy, Debug, PartialEq, Eq, PartialOrd, Ord, Hash)]
pub enum Item {
    Star,
    Num(i64),
    Last,
}

impl Item {
    pub fn as_num(&self) -> (r: Option<i64>)
        ensures
            r == (match *self {
                Item::Num(n) => Some(n),
                _ => None,
            }),
    {
        match self {
            Item::Num(n) => Some(*n),
            _ => None,
        }
    }

    pub fn is_star(&self) -> (r: bool)
        ensures
            r == (*self is Star),
    {
        match self {
            Item::Star => true,
            _ => false,
        }
    }

    /// Whether two items are the same value.
    pub fn same(&self, other: &Item) -> (r: bool)
        ensures
            r == (*self == *other),
    {
        match (self, other) {
            (Item::Star, Item::Star) => true,
            (Item::Last, Item::Last) => true,
            (Item::Num(a), Item::Num(b)) => *a == *b,
            _ => false,
        }
    }
}

/// The `nth` qualifier in `5#3` (third Friday) or `l3` (last Wednesday).
#[derive(Clone, Copy, Debug, PartialEq, Eq, PartialOrd, Ord)]
pub enum Nth {
    Num(i64),
    Last,
}

impl Nth {
    pub fn same(&self, other: &Nth) -> (r: bool)
        ensures
            r == (*self == *other),
    {
        match (self, other) {
            (Nth::Last, Nth::Last) => true,
            (Nth::Num(a), Nth::Num(b)) => *a == *b,
            _ => false,
        }
    }
}

/// Whether `items` holds `item`.
pub fn contains_item(items: &Vec<Item>, item: Item) -> (r: bool)
    ensures
        r == items@.contains(item),
{
    let mut i: usize = 0;
    while i < items.len()
        invariant
            i <= items.len(),
            forall|j: int| 0 <= j < i ==> items@[j] != item,
        decreases items.len() - i,
    {
        if items[i].same(&item) {
            return true;
        }
        i = i + 1;
    }
    false
}

} // verus!
