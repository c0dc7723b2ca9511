//! The greatest items of a collection, greatest first.

use core::cmp::Ordering;
use vstd::laws_cmp::{
    obeys_cmp, obeys_cmp_ord, obeys_cmp_partial_ord, obeys_partial_cmp_spec_properties,
};
use vstd::laws_eq::obeys_eq_spec_properties;
use vstd::prelude::*;
use vstd::std_specs::cmp::OrdSpec;

verus! {

broadcast use vstd::seq_lib::group_to_multiset_ensures;

/// Whether the comparisons of `T` do what they are specified to do, and
/// order its values totally.
pub open spec fn total_order<T: Ord>() -> bool {
    obeys_cmp::<T>()
}

/// `a` is not greater than `b`.
pub open spec fn le<T: Ord>(a: T, b: T) -> bool {
    a.cmp_spec(&b) != Ordering::Greater
}

/// Of two values, one is not greater than the other.
pub proof fn lemma_le_total<T: Ord>(a: T, b: T)
    requires
        total_order::<T>(),
    ensures
        le(a, b) || le(b, a),
{
    reveal(obeys_cmp_ord);
    reveal(obeys_partial_cmp_spec_properties);
}

/// What is not greater than a value is not greater than anything that the
/// value is not greater than.
pub proof fn lemma_le_transitive<T: Ord>(a: T, b: T, c: T)
    requires
        total_order::<T>(),
        le(a, b),
        le(b, c),
    ensures
        le(a, c),
{
    reveal(obeys_cmp_ord);
    reveal(obeys_partial_cmp_spec_properties);
    reveal(obeys_eq_spec_properties);
}

/// Whether `a` is not greater than `b`.
fn not_greater<T: Ord>(a: &T, b: &T) -> (r: bool)
    requires
        total_order::<T>(),
    ensures
        r == le(*a, *b),
{
    proof {
        reveal(obeys_cmp_ord);
        reveal(obeys_cmp_partial_ord);
    }
    *a <= *b
}

/// The last of items in ascending order is the greatest of them.
pub proof fn lemma_last_is_greatest<T: Ord>(items: Seq<T>, i: int)
    requires
        total_order::<T>(),
        ascending(items),
        0 <= i < items.len(),
    ensures
        le(items[i], items.last()),
{
    if i == items.len() - 1 {
        lemma_le_total(items[i], items[i]);
    }
}

/// Whether no item is greater than one that follows it.
pub open spec fn ascending<T: Ord>(items: Seq<T>) -> bool {
    forall|i: int, j: int| 0 <= i < j < items.len() ==> le(#[trigger] items[i], #[trigger] items[j])
}

/// What is still to come of items in ascending order, of which `remaining`
/// may be handed out: the last of them first, as many as there are or as may
/// be handed out, whichever is less.
pub open spec fn to_come<T>(items: Seq<T>, remaining: nat) -> Seq<T> {
    Seq::new(
        if remaining < items.len() {
            remaining
        } else {
            items.len()
        },
        |i: int| items[items.len() - 1 - i],
    )
}

/// What is still to come of items in ascending order descends, and nothing
/// that is held back is greater than anything that is to come.
pub proof fn lemma_to_come_greatest<T: Ord>(items: Seq<T>, remaining: nat)
    requires
        ascending(items),
    ensures
        forall|i: int, j: int|
            0 <= i < j < to_come(items, remaining).len() ==> le(
                #[trigger] to_come(items, remaining)[j],
                #[trigger] to_come(items, remaining)[i],
            ),
        forall|held: int, i: int|
            0 <= held < items.len() - to_come(items, remaining).len() && 0 <= i < to_come(
                items,
                remaining,
            ).len() ==> le(#[trigger] items[held], #[trigger] to_come(items, remaining)[i]),
{
}

/// Hands out the greatest items of a collection, greatest first, up to a
/// number that is set when it is made.
pub struct TopK<T: Ord> {
    sorted: Vec<T>,
    remaining: usize,
}

impl<T: Ord> TopK<T> {
    /// The items that are still held. They are in ascending order from the
    /// start, and stay so.
    pub closed spec fn items(self) -> Seq<T> {
        self.sorted@
    }

    /// How many items may still be handed out.
    pub closed spec fn remaining(self) -> nat {
        self.remaining as nat
    }

    /// Hands out the greatest of the items that are still held.
    ///
    /// Once as many items were asked for as the number allows, there is
    /// nothing more, and nothing changes. Before that, each call counts, also
    /// one that finds no item left.
    pub fn next(&mut self) -> (r: Option<T>)
        ensures
            ascending(old(self).items()) ==> ascending(final(self).items()),
            old(self).remaining() == 0 ==> r.is_none() && final(self).items() == old(self).items()
                && final(self).remaining() == 0,
            old(self).remaining() > 0 ==> final(self).remaining() == old(self).remaining() - 1,
            old(self).remaining() > 0 && old(self).items().len() == 0 ==> r.is_none()
                && final(self).items() == old(self).items(),
            old(self).remaining() > 0 && old(self).items().len() > 0 ==> r == Some(
                old(self).items().last(),
            ) && final(self).items() == old(self).items().drop_last(),
    {
        if self.remaining == 0 {
            None
        } else {
            self.remaining -= 1;
            self.sorted.pop()
        }
    }

    /// Hands out all that is still to come, greatest first.
    pub fn collect(self) -> (out: Vec<T>)
        ensures
            out@ == to_come(self.items(), self.remaining()),
    {
        let ghost items = self.items();
        let ghost remaining = self.remaining();
        let mut top = self;
        let mut out: Vec<T> = Vec::new();
        loop
            invariant_except_break
                out@.len() <= remaining,
                out@.len() <= items.len(),
                top.remaining() == remaining - out@.len(),
                top.items() == items.take(items.len() - out@.len()),
                forall|i: int|
                    0 <= i < out@.len() ==> #[trigger] out@[i] == items[items.len() - 1 - i],
            ensures
                out@ == to_come(items, remaining),
            decreases top.remaining(),
        {
            match top.next() {
                Some(item) => {
                    out.push(item);
                },
                None => {
                    break ;
                },
            }
        }
        out
    }

    /// How many items are still to come: both bounds are the number of
    /// items that are held, or the number that may still be handed out where
    /// that is less.
    pub fn size_hint(&self) -> (r: (usize, Option<usize>))
        ensures
            r.0 == if self.items().len() < self.remaining() {
                self.items().len()
            } else {
                self.remaining()
            },
            r.1 == Some(r.0),
    {
        let held = self.sorted.len();
        let exact = if held < self.remaining {
            held
        } else {
            self.remaining
        };
        (exact, Some(exact))
    }
}

/// Collections whose greatest items can be handed out.
pub trait IteratorExt: Sized {
    type Item: Ord;

    /// The items of the collection.
    spec fn yields(self) -> Seq<Self::Item>;

    /// Takes the items, to hand out the `k` greatest, greatest first.
    fn topk(self, k: usize) -> (r: TopK<Self::Item>)
        requires
            total_order::<Self::Item>(),
        ensures
            r.items().to_multiset() == self.yields().to_multiset(),
            ascending(r.items()),
            r.remaining() == k,
    ;
}

impl<T: Ord> IteratorExt for Vec<T> {
    type Item = T;

    open spec fn yields(self) -> Seq<T> {
        self@
    }

    fn topk(self, k: usize) -> (r: TopK<T>) {
        let ghost all = self@;
        let mut rest = self;
        let mut sorted: Vec<T> = Vec::new();
        loop
            invariant
                total_order::<T>(),
                ascending(sorted@),
                sorted@.to_multiset().add(rest@.to_multiset()) == all.to_multiset(),
            ensures
                sorted@.to_multiset() == all.to_multiset(),
            decreases rest@.len(),
        {
            let ghost before = rest@;
            match rest.pop() {
                None => {
                    break ;
                },
                Some(item) => {
                    assert(before =~= rest@.push(item));
                    insert(&mut sorted, item);
                },
            }
        }
        TopK { sorted, remaining: k }
    }
}

/// Puts an item where it belongs among items in ascending order.
fn insert<T: Ord>(sorted: &mut Vec<T>, item: T)
    requires
        total_order::<T>(),
        ascending(old(sorted)@),
    ensures
        ascending(final(sorted)@),
        final(sorted)@.to_multiset() == old(sorted)@.to_multiset().insert(item),
{
    let mut at = sorted.len();
    while at > 0 && !not_greater(&sorted[at - 1], &item)
        invariant
            total_order::<T>(),
            sorted@ == old(sorted)@,
            at <= sorted@.len(),
            forall|i: int| at <= i < sorted@.len() ==> le(item, #[trigger] sorted@[i]),
        decreases at,
    {
        proof {
            lemma_le_total(sorted@[at - 1], item);
        }
        at -= 1;
    }
    let ghost before = sorted@;
    sorted.insert(at, item);
    assert forall|i: int, j: int| 0 <= i < j < sorted@.len() implies le(
        #[trigger] sorted@[i],
        #[trigger] sorted@[j],
    ) by {
        if j == at && i < at - 1 {
            lemma_le_transitive(before[i], before[at - 1], item);
        }
    }
}

} // verus!
