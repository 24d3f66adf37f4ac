//! Arranging values in order.
use vstd::prelude::*;

use crate::bytes::{all_digits, decimal, is_digit, lemma_padded, number, padded};

verus! {

/// Values that come one after the other. Two values neither of which comes
/// after the other need not be equal.
pub trait Ranked: Sized {
    spec fn not_after(self, other: Self) -> bool;

    proof fn total(a: Self, b: Self)
        ensures
            a.not_after(b) || b.not_after(a),
    ;

    proof fn transitive(a: Self, b: Self, c: Self)
        requires
            a.not_after(b),
            b.not_after(c),
        ensures
            a.not_after(c),
    ;

    fn is_not_after(&self, other: &Self) -> (result: bool)
        ensures
            result == self.not_after(*other),
    ;
}

pub open spec fn in_order<T: Ranked>(items: Seq<T>) -> bool {
    forall|i: int, j: int| 0 <= i < j < items.len() ==> (#[trigger] items[i]).not_after(
        #[trigger] items[j],
    )
}

/// `items` with `item` put in behind everything that it does not come before.
pub open spec fn inserted<T: Ranked>(items: Seq<T>, item: T) -> Seq<T>
    decreases items.len(),
{
    if items.len() == 0 || items.last().not_after(item) {
        items.push(item)
    } else {
        inserted(items.drop_last(), item).push(items.last())
    }
}

/// `items` in order; those of one rank keep the order that they had.
pub open spec fn arranged<T: Ranked>(items: Seq<T>) -> Seq<T>
    decreases items.len(),
{
    if items.len() == 0 {
        items
    } else {
        inserted(arranged(items.drop_last()), items.last())
    }
}

pub open spec fn same_rank<T: Ranked>(a: T, b: T) -> bool {
    a.not_after(b) && b.not_after(a)
}

/// Those of `items` that have one rank with `rank`.
pub open spec fn of_rank<T: Ranked>(items: Seq<T>, rank: T) -> Seq<T> {
    items.filter(|item: T| same_rank(item, rank))
}

proof fn lemma_inserted<T: Ranked>(items: Seq<T>, item: T)
    requires
        in_order(items),
    ensures
        in_order(inserted(items, item)),
        inserted(items, item).to_multiset() == items.to_multiset().insert(item),
        inserted(items, item).len() == items.len() + 1,
    decreases items.len(),
{
    broadcast use vstd::seq_lib::group_to_multiset_ensures;

    if items.len() == 0 {
        assert(in_order(items.push(item)));
    } else if items.last().not_after(item) {
        let longer = items.push(item);
        assert forall|i: int, j: int| 0 <= i < j < longer.len() implies (
        #[trigger] longer[i]).not_after(#[trigger] longer[j]) by {
            if j == items.len() && i < items.len() - 1 {
                assert(items[i].not_after(items[items.len() - 1]));
                T::transitive(items[i], items.last(), item);
            }
        }
    } else {
        let before = items.drop_last();
        lemma_inserted(before, item);
        let shorter = inserted(before, item);
        let longer = shorter.push(items.last());
        T::total(items.last(), item);
        assert(before.push(items.last()) =~= items);
        assert forall|i: int, j: int| 0 <= i < j < longer.len() implies (
        #[trigger] longer[i]).not_after(#[trigger] longer[j]) by {
            if j == shorter.len() {
                let x = shorter[i];
                assert(shorter.contains(x));
                assert(shorter.to_multiset().count(x) > 0);
                if x != item {
                    assert(before.to_multiset().count(x) > 0);
                    assert(before.contains(x));
                    let k = choose|k: int| 0 <= k < before.len() && before[k] == x;
                    assert(items[k].not_after(items[items.len() - 1]));
                }
            }
        }
        assert(longer.to_multiset() == shorter.to_multiset().insert(items.last()));
        assert(items.to_multiset() == before.to_multiset().insert(items.last()));
        assert(longer.to_multiset() =~= items.to_multiset().insert(item));
    }
}

proof fn lemma_of_rank_push<T: Ranked>(items: Seq<T>, item: T, rank: T)
    ensures
        of_rank(items.push(item), rank) == if same_rank(item, rank) {
            of_rank(items, rank).push(item)
        } else {
            of_rank(items, rank)
        },
{
    reveal(Seq::filter);
    assert(items.push(item).drop_last() =~= items);
}

proof fn lemma_inserted_keeps_order_of_rank<T: Ranked>(items: Seq<T>, item: T, rank: T)
    requires
        in_order(items),
    ensures
        of_rank(inserted(items, item), rank) == of_rank(items.push(item), rank),
    decreases items.len(),
{
    if items.len() > 0 && !items.last().not_after(item) {
        let before = items.drop_last();
        lemma_inserted_keeps_order_of_rank(before, item, rank);
        lemma_of_rank_push(before, item, rank);
        lemma_of_rank_push(before, items.last(), rank);
        lemma_of_rank_push(items, item, rank);
        lemma_of_rank_push(inserted(before, item), items.last(), rank);
        assert(before.push(items.last()) =~= items);
        if same_rank(items.last(), rank) && same_rank(item, rank) {
            T::transitive(items.last(), rank, item);
        }
    }
}

/// What `arranged` gives is in order, holds what was given, and leaves values
/// of one rank in the order in which they were given.
pub proof fn lemma_arranged<T: Ranked>(items: Seq<T>)
    ensures
        in_order(arranged(items)),
        arranged(items).to_multiset() == items.to_multiset(),
        arranged(items).len() == items.len(),
        forall|rank: T| #[trigger] of_rank(arranged(items), rank) == of_rank(items, rank),
    decreases items.len(),
{
    broadcast use vstd::seq_lib::group_to_multiset_ensures;

    if items.len() > 0 {
        let before = items.drop_last();
        lemma_arranged(before);
        lemma_inserted(arranged(before), items.last());
        assert(before.push(items.last()) =~= items);
        assert forall|rank: T| #[trigger] of_rank(arranged(items), rank) == of_rank(
            items,
            rank,
        ) by {
            lemma_inserted_keeps_order_of_rank(arranged(before), items.last(), rank);
            lemma_of_rank_push(arranged(before), items.last(), rank);
            lemma_of_rank_push(before, items.last(), rank);
            assert(of_rank(arranged(before), rank) == of_rank(before, rank));
        }
    }
}

proof fn lemma_inserted_mapped<T: Ranked, U>(items: Seq<T>, item: T, f: spec_fn(T) -> U)
    ensures
        inserted(items, item).map_values(f).to_multiset() == items.map_values(
            f,
        ).to_multiset().insert(f(item)),
    decreases items.len(),
{
    broadcast use vstd::seq_lib::group_to_multiset_ensures;

    if items.len() == 0 || items.last().not_after(item) {
        assert(items.push(item).map_values(f) =~= items.map_values(f).push(f(item)));
    } else {
        let before = items.drop_last();
        lemma_inserted_mapped(before, item, f);
        assert(inserted(items, item).map_values(f) =~= inserted(before, item).map_values(f).push(
            f(items.last()),
        ));
        assert(items.map_values(f) =~= before.map_values(f).push(f(items.last())));
        assert(inserted(items, item).map_values(f).to_multiset() =~= items.map_values(
            f,
        ).to_multiset().insert(f(item)));
    }
}

/// What is made of each value does not depend on the order.
pub proof fn lemma_arranged_mapped<T: Ranked, U>(items: Seq<T>, f: spec_fn(T) -> U)
    ensures
        arranged(items).map_values(f).to_multiset() == items.map_values(f).to_multiset(),
    decreases items.len(),
{
    broadcast use vstd::seq_lib::group_to_multiset_ensures;

    if items.len() > 0 {
        let before = items.drop_last();
        lemma_arranged_mapped(before, f);
        lemma_inserted_mapped(arranged(before), items.last(), f);
        assert(items.map_values(f) =~= before.map_values(f).push(f(items.last())));
    }
}

/// Values that stand in order stand as they do where each comes strictly before all
/// that follow it.
pub proof fn lemma_order_unique<T>(a: Seq<T>, b: Seq<T>, not_after: spec_fn(T, T) -> bool)
    requires
        forall|i: int, j: int|
            0 <= i < j < a.len() ==> not_after(#[trigger] a[i], #[trigger] a[j]),
        forall|i: int, j: int|
            0 <= i < j < b.len() ==> !not_after(#[trigger] b[j], #[trigger] b[i]),
        a.to_multiset() == b.to_multiset(),
    ensures
        a == b,
    decreases a.len(),
{
    broadcast use vstd::seq_lib::group_to_multiset_ensures;

    vstd::seq_lib::to_multiset_len(a);
    vstd::seq_lib::to_multiset_len(b);
    if a.len() == 0 {
        assert(a =~= b);
    } else {
        let n = a.len() - 1;
        assert(a.to_multiset().count(a.last()) > 0);
        assert(b.contains(a.last()));
        let j = choose|j: int| 0 <= j < b.len() && b[j] == a.last();
        if j < n {
            assert(b.to_multiset().count(b.last()) > 0);
            assert(a.contains(b.last()));
            let k = choose|k: int| 0 <= k < a.len() && a[k] == b.last();
            assert(!not_after(b[n], b[j]));
            assert(k < n ==> not_after(a[k], a[n]));
        }
        assert(a.remove(n) =~= a.drop_last());
        assert(b.remove(n) =~= b.drop_last());
        assert(a.drop_last().to_multiset() =~= b.drop_last().to_multiset());
        lemma_order_unique(a.drop_last(), b.drop_last(), not_after);
        assert(a =~= a.drop_last().push(a.last()));
        assert(b =~= b.drop_last().push(b.last()));
    }
}

proof fn lemma_inserted_at<T: Ranked>(items: Seq<T>, item: T, at: int)
    requires
        0 <= at <= items.len(),
        forall|i: int| 0 <= i < at ==> (#[trigger] items[i]).not_after(item),
        forall|i: int| at <= i < items.len() ==> !(#[trigger] items[i]).not_after(item),
    ensures
        inserted(items, item) == items.insert(at, item),
    decreases items.len(),
{
    if at < items.len() {
        let before = items.drop_last();
        assert(!items[items.len() - 1].not_after(item));
        lemma_inserted_at(before, item, at);
        assert(before.insert(at, item).push(items.last()) =~= items.insert(at, item));
    } else {
        if items.len() > 0 {
            assert(items[items.len() - 1].not_after(item));
        }
        assert(items.push(item) =~= items.insert(at, item));
    }
}

/// Arranges `items`.
pub fn arrange<T: Ranked>(items: Vec<T>) -> (result: Vec<T>)
    ensures
        result@ == arranged(items@),
{
    let mut result: Vec<T> = Vec::new();
    let ghost given = items@;
    assert(given.take(0) =~= Seq::<T>::empty());
    for item in it: items
        invariant
            it.seq() == given,
            result@ == arranged(given.take(it.index() as int)),
            result@.len() == it.index(),
    {
        let ghost n = it.index() as int;
        proof {
            lemma_arranged(given.take(n));
            assert(given.take(n + 1).drop_last() =~= given.take(n));
        }
        // The first `low` of the arranged items do not come after `item`, and
        // those from `high` on do.
        let mut low: usize = 0;
        let mut high: usize = result.len();
        while low < high
            invariant
                0 <= low <= high <= result@.len(),
                in_order(result@),
                forall|i: int| 0 <= i < low ==> (#[trigger] result@[i]).not_after(item),
                forall|i: int|
                    high <= i < result@.len() ==> !(#[trigger] result@[i]).not_after(item),
            decreases high - low,
        {
            let middle: usize = low + (high - low) / 2;
            if result[middle].is_not_after(&item) {
                proof {
                    assert forall|i: int| 0 <= i < middle + 1 implies (
                    #[trigger] result@[i]).not_after(item) by {
                        if i < middle {
                            T::transitive(result@[i], result@[middle as int], item);
                        }
                    }
                }
                low = middle + 1;
            } else {
                proof {
                    assert forall|i: int| middle <= i < result@.len() implies !(
                    #[trigger] result@[i]).not_after(item) by {
                        if i > middle && result@[i].not_after(item) {
                            T::transitive(result@[middle as int], result@[i], item);
                        }
                    }
                }
                high = middle;
            }
        }
        proof {
            lemma_inserted_at(result@, item, low as int);
        }
        result.insert(low, item);
    }
    assert(given.take(given.len() as int) =~= given);
    result
}

/// Byte strings in the order of a dictionary.
pub open spec fn lexical(a: Seq<u8>, b: Seq<u8>) -> bool
    decreases a.len(),
{
    if a.len() == 0 {
        true
    } else if b.len() == 0 {
        false
    } else if a[0] == b[0] {
        lexical(a.drop_first(), b.drop_first())
    } else {
        a[0] < b[0]
    }
}

pub proof fn lemma_lexical_total(a: Seq<u8>, b: Seq<u8>)
    ensures
        lexical(a, b) || lexical(b, a),
        lexical(a, b) && lexical(b, a) ==> a == b,
    decreases a.len(),
{
    if a.len() > 0 && b.len() > 0 && a[0] == b[0] {
        lemma_lexical_total(a.drop_first(), b.drop_first());
        if a.drop_first() == b.drop_first() {
            assert(a =~= seq![a[0]] + a.drop_first());
            assert(b =~= seq![b[0]] + b.drop_first());
        }
    } else if a.len() == 0 && b.len() == 0 {
        assert(a =~= b);
    }
}

pub proof fn lemma_lexical_transitive(a: Seq<u8>, b: Seq<u8>, c: Seq<u8>)
    requires
        lexical(a, b),
        lexical(b, c),
    ensures
        lexical(a, c),
    decreases a.len(),
{
    if a.len() > 0 && a[0] == b[0] && b[0] == c[0] {
        lemma_lexical_transitive(a.drop_first(), b.drop_first(), c.drop_first());
    }
}

/// Whether `a` is `b` or stands before it in a dictionary.
pub fn is_lexical(a: &[u8], b: &[u8]) -> (result: bool)
    ensures
        result == lexical(a@, b@),
{
    let mut at: usize = 0;
    assert(a@.skip(0) =~= a@);
    assert(b@.skip(0) =~= b@);
    while at < a.len()
        invariant
            at <= a@.len(),
            at <= b@.len(),
            lexical(a@, b@) == lexical(a@.skip(at as int), b@.skip(at as int)),
        decreases a@.len() - at,
    {
        if at >= b.len() {
            return false;
        }
        if a[at] != b[at] {
            return a[at] < b[at];
        }
        assert(a@.skip(at as int).drop_first() =~= a@.skip(at + 1));
        assert(b@.skip(at as int).drop_first() =~= b@.skip(at + 1));
        at = at + 1;
    }
    true
}

/// Byte strings of one length are ordered by where they first differ, whatever
/// follows them.
proof fn lemma_lexical_followed(a: Seq<u8>, b: Seq<u8>, c: Seq<u8>, d: Seq<u8>)
    requires
        a.len() == b.len(),
        a != b,
    ensures
        lexical(a + c, b + d) == lexical(a, b),
    decreases a.len(),
{
    if a.len() == 0 {
        assert(a =~= b);
    } else {
        if a[0] == b[0] {
            if a.drop_first() == b.drop_first() {
                assert(a =~= seq![a[0]] + a.drop_first());
                assert(b =~= seq![b[0]] + b.drop_first());
            }
            lemma_lexical_followed(a.drop_first(), b.drop_first(), c, d);
        }
        assert((a + c).drop_first() =~= a.drop_first() + c);
        assert((b + d).drop_first() =~= b.drop_first() + d);
    }
}

/// A common beginning does not matter.
proof fn lemma_lexical_preceded(start: Seq<u8>, a: Seq<u8>, b: Seq<u8>)
    ensures
        lexical(start + a, start + b) == lexical(a, b),
    decreases start.len(),
{
    if start.len() == 0 {
        assert(start + a =~= a);
        assert(start + b =~= b);
    } else {
        lemma_lexical_preceded(start.drop_first(), a, b);
        assert((start + a).drop_first() =~= start.drop_first() + a);
        assert((start + b).drop_first() =~= start.drop_first() + b);
    }
}

/// Digit strings of one length stand in the order of their numbers.
proof fn lemma_digits_in_order(a: Seq<u8>, b: Seq<u8>)
    requires
        a.len() == b.len(),
        all_digits(a),
        all_digits(b),
        a != b,
        lexical(a, b),
    ensures
        number(a) < number(b),
    decreases a.len(),
{
    if a.len() == 0 {
        assert(a =~= b);
    } else {
        let a0 = a.drop_last();
        let b0 = b.drop_last();
        assert(is_digit(a[a.len() - 1]));
        assert(is_digit(b[b.len() - 1]));
        assert(a =~= a0 + seq![a.last()]);
        assert(b =~= b0 + seq![b.last()]);
        if a0 == b0 {
            lemma_lexical_preceded(a0, seq![a.last()], seq![b.last()]);
            assert(seq![a.last()][0] == a.last());
            assert(a.last() < b.last());
        } else {
            lemma_lexical_followed(a0, b0, seq![a.last()], seq![b.last()]);
            lemma_digits_in_order(a0, b0);
        }
    }
}

pub open spec fn power_of_ten(n: int) -> int
    decreases n,
{
    if n <= 0 {
        1
    } else {
        10 * power_of_ten(n - 1)
    }
}

proof fn lemma_decimal_length(n: int, width: int)
    requires
        0 <= n < power_of_ten(width),
        1 <= width,
    ensures
        decimal(n).len() <= width,
    decreases n,
{
    if n >= 10 {
        assert(power_of_ten(1) == 10) by {
            reveal_with_fuel(power_of_ten, 2);
        }
        lemma_decimal_length(n / 10, width - 1);
    }
}

/// Numbers that are filled up to one width stand in their own order, as far as
/// they fit that width.
pub proof fn lemma_padded_in_order(start: Seq<u8>, end: Seq<u8>, width: int, a: int, b: int)
    requires
        0 <= a < b < power_of_ten(width),
        1 <= width,
    ensures
        lexical(start + padded(a, width) + end, start + padded(b, width) + end),
        start + padded(a, width) + end != start + padded(b, width) + end,
{
    let pa = padded(a, width);
    let pb = padded(b, width);
    lemma_padded(a, width);
    lemma_padded(b, width);
    lemma_decimal_length(a, width);
    lemma_decimal_length(b, width);
    assert(pa != pb);
    lemma_lexical_total(pa, pb);
    if lexical(pb, pa) {
        lemma_digits_in_order(pb, pa);
    }
    lemma_lexical_followed(pa, pb, end, end);
    lemma_lexical_followed(pb, pa, end, end);
    lemma_lexical_preceded(start, pa + end, pb + end);
    lemma_lexical_preceded(start, pb + end, pa + end);
    assert(start + pa + end =~= start + (pa + end));
    assert(start + pb + end =~= start + (pb + end));
}

impl Ranked for Vec<u8> {
    open spec fn not_after(self, other: Self) -> bool {
        lexical(self@, other@)
    }

    proof fn total(a: Self, b: Self) {
        lemma_lexical_total(a@, b@);
    }

    proof fn transitive(a: Self, b: Self, c: Self) {
        lemma_lexical_transitive(a@, b@, c@);
    }

    fn is_not_after(&self, other: &Self) -> (result: bool) {
        is_lexical(self.as_slice(), other.as_slice())
    }
}

} // verus!
