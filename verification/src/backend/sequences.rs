//! Small helpers on vectors and sequences that the backend shares. One of
//! them is trusted: the parallel map, which is rayon's.

use vstd::prelude::*;
use super::Token;

verus! {

/// The sentences held by a vector of token vectors.
pub open spec fn sentences(data: Seq<Vec<Token>>) -> Seq<Seq<Token>> {
    data.map_values(|sentence: Vec<Token>| sentence@)
}

/// The number of tokens in all sentences together.
pub open spec fn total_tokens(data: Seq<Seq<Token>>) -> nat
    decreases data.len(),
{
    if data.len() == 0 {
        0
    } else {
        total_tokens(data.drop_last()) + data.last().len()
    }
}

/// The token count is the length of the sentences laid end to end.
pub proof fn lemma_total_tokens_is_flat_length(data: Seq<Seq<Token>>)
    ensures
        total_tokens(data) == data.flatten().len(),
    decreases data.len(),
{
    if data.len() == 0 {
        assert(data.flatten() =~= Seq::<Token>::empty());
    } else {
        lemma_total_tokens_is_flat_length(data.drop_last());
        data.drop_last().lemma_flatten_push(data.last());
        assert(data.drop_last().push(data.last()) =~= data);
    }
}

/// Adding a sentence adds its tokens.
pub proof fn lemma_total_tokens_push(data: Seq<Seq<Token>>, sentence: Seq<Token>)
    ensures
        total_tokens(data.push(sentence)) == total_tokens(data) + sentence.len(),
{
    assert(data.push(sentence).drop_last() =~= data);
}

/// Copies the items from `from` up to `to`.
pub fn copy_range<T: Copy>(items: &Vec<T>, from: usize, to: usize) -> (copy: Vec<T>)
    requires
        from <= to <= items.len(),
    ensures
        copy@ == items@.subrange(from as int, to as int),
{
    let mut copy: Vec<T> = Vec::new();
    let mut i: usize = from;
    while i < to
        invariant
            from <= i <= to <= items.len(),
            copy@ == items@.subrange(from as int, i as int),
        decreases to - i,
    {
        copy.push(items[i]);
        proof {
            assert(copy@ =~= items@.subrange(from as int, i + 1));
        }
        i += 1;
    }
    copy
}

/// Copies all items.
pub fn copy_all<T: Copy>(items: &Vec<T>) -> (copy: Vec<T>)
    ensures
        copy@ == items@,
{
    let copy = copy_range(items, 0, items.len());
    proof {
        assert(items@.subrange(0, items.len() as int) =~= items@);
    }
    copy
}

/// Appends a copy of `more` to `items`.
pub fn append_copy<T: Copy>(items: &mut Vec<T>, more: &Vec<T>)
    ensures
        final(items)@ == old(items)@ + more@,
{
    let mut i: usize = 0;
    while i < more.len()
        invariant
            i <= more.len(),
            items@ == old(items)@ + more@.take(i as int),
        decreases more.len() - i,
    {
        items.push(more[i]);
        proof {
            assert(items@ =~= old(items)@ + more@.take(i + 1));
        }
        i += 1;
    }
    proof {
        assert(more@.take(more.len() as int) =~= more@);
    }
}

/// Whether the second components never decrease along the sequence.
pub open spec fn ascending(items: Seq<(Token, usize)>) -> bool {
    forall|i: int, j: int| 0 <= i <= j < items.len() ==> items[i].1 <= items[j].1
}

/// The items of the given size, in their order.
pub open spec fn of_size(items: Seq<(Token, usize)>, size: usize) -> Seq<(Token, usize)>
    decreases items.len(),
{
    if items.len() == 0 {
        Seq::empty()
    } else {
        let before = of_size(items.drop_last(), size);
        if items.last().1 == size {
            before.push(items.last())
        } else {
            before
        }
    }
}

/// Whether `after` holds the items of each size in the order in which `before`
/// holds them.
pub open spec fn keeps_order_within_sizes(
    before: Seq<(Token, usize)>,
    after: Seq<(Token, usize)>,
) -> bool {
    forall|size: usize| #[trigger] of_size(after, size) == of_size(before, size)
}

/// The items of a size in two lists, one after the other, are those of the
/// first list followed by those of the second.
pub proof fn lemma_of_size_concat(a: Seq<(Token, usize)>, b: Seq<(Token, usize)>, size: usize)
    ensures
        of_size(a + b, size) == of_size(a, size) + of_size(b, size),
    decreases b.len(),
{
    if b.len() == 0 {
        assert(a + b =~= a);
        assert(of_size(a, size) + of_size(b, size) =~= of_size(a, size));
    } else {
        lemma_of_size_concat(a, b.drop_last(), size);
        assert((a + b).drop_last() =~= a + b.drop_last());
        assert((a + b).last() == b.last());
        if b.last().1 == size {
            assert((of_size(a, size) + of_size(b.drop_last(), size)).push(b.last()) =~= of_size(
                a,
                size,
            ) + of_size(b.drop_last(), size).push(b.last()));
        }
    }
}

/// A list without an item of a size has no items of that size.
proof fn lemma_of_size_none(items: Seq<(Token, usize)>, size: usize)
    requires
        forall|k: int| 0 <= k < items.len() ==> (#[trigger] items[k]).1 != size,
    ensures
        of_size(items, size) == Seq::<(Token, usize)>::empty(),
    decreases items.len(),
{
    if items.len() > 0 {
        assert forall|k: int| 0 <= k < items.drop_last().len() implies (
        #[trigger] items.drop_last()[k]).1 != size by {
            assert(items.drop_last()[k] == items[k]);
        }
        lemma_of_size_none(items.drop_last(), size);
        assert(items.last() == items[items.len() - 1]);
    }
}

/// Merges two lists whose sizes never decrease into one. Where sizes are
/// equal, items of `left` come first.
fn merge_by_size(left: &Vec<(Token, usize)>, right: &Vec<(Token, usize)>) -> (merged: Vec<
    (Token, usize),
>)
    requires
        ascending(left@),
        ascending(right@),
    ensures
        ascending(merged@),
        merged@.to_multiset() == left@.to_multiset().add(right@.to_multiset()),
        forall|size: usize| #[trigger]
            of_size(merged@, size) == of_size(left@, size) + of_size(right@, size),
{
    let mut merged: Vec<(Token, usize)> = Vec::new();
    let mut i: usize = 0;
    let mut j: usize = 0;
    proof {
        assert(left@.take(0) =~= Seq::<(Token, usize)>::empty());
        assert(right@.take(0) =~= Seq::<(Token, usize)>::empty());
        vstd::seq_lib::lemma_multiset_commutative(left@.take(0), right@.take(0));
        assert(left@.take(0) + right@.take(0) =~= merged@);
        assert forall|size: usize| #[trigger]
            of_size(merged@, size) == of_size(left@.take(0), size) + of_size(
                right@.take(0),
                size,
            ) by {
            assert(of_size(merged@, size) =~= of_size(left@.take(0), size) + of_size(
                right@.take(0),
                size,
            ));
        }
    }
    while i < left.len() || j < right.len()
        invariant
            i <= left.len(),
            j <= right.len(),
            ascending(left@),
            ascending(right@),
            ascending(merged@),
            merged@.to_multiset() == left@.take(i as int).to_multiset().add(
                right@.take(j as int).to_multiset(),
            ),
            forall|k: int| 0 <= k < merged@.len() && i < left.len() ==> merged@[k].1 <= left@[i as int].1,
            forall|k: int|
                0 <= k < merged@.len() && j < right.len() ==> merged@[k].1 <= right@[j as int].1,
            forall|k: int| 0 <= k < j && i < left.len() ==> right@[k].1 < left@[i as int].1,
            forall|size: usize| #[trigger]
                of_size(merged@, size) == of_size(left@.take(i as int), size) + of_size(
                    right@.take(j as int),
                    size,
                ),
        decreases left.len() - i + right.len() - j,
    {
        let ghost before = merged@;
        let from_left: bool = if i < left.len() && j < right.len() {
            left[i].1 <= right[j].1
        } else {
            i < left.len()
        };
        if from_left {
            let item = left[i];
            merged.push(item);
            proof {
                vstd::seq_lib::to_multiset_build(before, item);
                vstd::seq_lib::to_multiset_build(left@.take(i as int), item);
                assert(left@.take(i + 1) =~= left@.take(i as int).push(item));
                assert(merged@.to_multiset() =~= left@.take(i + 1).to_multiset().add(
                    right@.take(j as int).to_multiset(),
                ));
                assert forall|a: int, b: int| 0 <= a <= b < merged@.len() implies merged@[a].1
                    <= merged@[b].1 by {
                    if b < before.len() {
                        assert(before[a].1 <= before[b].1);
                    } else if a < before.len() {
                        assert(before[a].1 <= left@[i as int].1);
                    }
                }
                assert forall|k: int|
                    0 <= k < merged@.len() && i + 1 < left.len() implies merged@[k].1 <= left@[i
                    + 1].1 by {
                    assert(left@[i as int].1 <= left@[i + 1].1);
                    if k < before.len() {
                        assert(before[k].1 <= left@[i as int].1);
                    }
                }
                assert forall|k: int| 0 <= k < j && i + 1 < left.len() implies right@[k].1 < left@[i
                    + 1].1 by {
                    assert(left@[i as int].1 <= left@[i + 1].1);
                }
                assert forall|size: usize| #[trigger]
                    of_size(merged@, size) == of_size(left@.take(i + 1), size) + of_size(
                        right@.take(j as int),
                        size,
                    ) by {
                    let taken_left = of_size(left@.take(i as int), size);
                    let taken_right = of_size(right@.take(j as int), size);
                    assert(merged@.drop_last() =~= before);
                    assert(left@.take(i + 1).drop_last() =~= left@.take(i as int));
                    assert(of_size(before, size) == taken_left + taken_right);
                    if item.1 == size {
                        assert forall|k: int| 0 <= k < right@.take(j as int).len() implies (
                        #[trigger] right@.take(j as int)[k]).1 != size by {
                            assert(right@[k].1 < left@[i as int].1);
                        }
                        lemma_of_size_none(right@.take(j as int), size);
                        assert((taken_left + taken_right).push(item) =~= taken_left.push(item)
                            + taken_right);
                    }
                }
            }
            i += 1;
        } else {
            let item = right[j];
            merged.push(item);
            proof {
                vstd::seq_lib::to_multiset_build(before, item);
                vstd::seq_lib::to_multiset_build(right@.take(j as int), item);
                assert(right@.take(j + 1) =~= right@.take(j as int).push(item));
                assert(merged@.to_multiset() =~= left@.take(i as int).to_multiset().add(
                    right@.take(j + 1).to_multiset(),
                ));
                assert forall|a: int, b: int| 0 <= a <= b < merged@.len() implies merged@[a].1
                    <= merged@[b].1 by {
                    if b < before.len() {
                        assert(before[a].1 <= before[b].1);
                    } else if a < before.len() {
                        assert(before[a].1 <= right@[j as int].1);
                    }
                }
                assert forall|k: int|
                    0 <= k < merged@.len() && j + 1 < right.len() implies merged@[k].1 <= right@[j
                    + 1].1 by {
                    assert(right@[j as int].1 <= right@[j + 1].1);
                    if k < before.len() {
                        assert(before[k].1 <= right@[j as int].1);
                    }
                }
                assert forall|k: int| 0 <= k < j + 1 && i < left.len() implies right@[k].1
                    < left@[i as int].1 by {
                    assert(right@[k].1 <= right@[j as int].1);
                }
                assert forall|size: usize| #[trigger]
                    of_size(merged@, size) == of_size(left@.take(i as int), size) + of_size(
                        right@.take(j + 1),
                        size,
                    ) by {
                    let taken_left = of_size(left@.take(i as int), size);
                    let taken_right = of_size(right@.take(j as int), size);
                    assert(merged@.drop_last() =~= before);
                    assert(right@.take(j + 1).drop_last() =~= right@.take(j as int));
                    assert(of_size(before, size) == taken_left + taken_right);
                    if item.1 == size {
                        assert((taken_left + taken_right).push(item) =~= taken_left
                            + taken_right.push(item));
                    }
                }
            }
            j += 1;
        }
    }
    proof {
        assert(left@.take(left.len() as int) =~= left@);
        assert(right@.take(right.len() as int) =~= right@);
    }
    merged
}

/// The items in the order of their sizes, by a merge sort: halves are sorted
/// and merged.
fn sorted_by_size(items: &Vec<(Token, usize)>) -> (sorted: Vec<(Token, usize)>)
    ensures
        ascending(sorted@),
        sorted@.to_multiset() == items@.to_multiset(),
        keeps_order_within_sizes(items@, sorted@),
    decreases items.len(),
{
    if items.len() <= 1 {
        return copy_all(items);
    }
    let middle: usize = items.len() / 2;
    let left = copy_range(items, 0, middle);
    let right = copy_range(items, middle, items.len());
    proof {
        assert(left@ + right@ =~= items@);
        vstd::seq_lib::lemma_multiset_commutative(left@, right@);
    }
    let sorted_left = sorted_by_size(&left);
    let sorted_right = sorted_by_size(&right);
    let sorted = merge_by_size(&sorted_left, &sorted_right);
    proof {
        assert forall|size: usize| #[trigger] of_size(sorted@, size) == of_size(items@, size) by {
            lemma_of_size_concat(left@, right@, size);
            assert(of_size(sorted_left@, size) == of_size(left@, size));
            assert(of_size(sorted_right@, size) == of_size(right@, size));
        }
    }
    sorted
}

/// Puts the items in the order of their sizes, the smallest first. Items of
/// the same size stay in the order they are in.
pub fn sort_by_size(items: &mut Vec<(Token, usize)>)
    ensures
        ascending(final(items)@),
        final(items)@.to_multiset() == old(items)@.to_multiset(),
        keeps_order_within_sizes(old(items)@, final(items)@),
{
    let sorted = sorted_by_size(items);
    *items = sorted;
}

/// Calls `par_iter`, `map` and `collect` of `rayon` on the items: the function
/// is applied to every item, on the threads of rayon's pool.
///
/// Trusted: the results come back in the order of the items, one for each
/// item, and each is a result of the function on that item.
#[verifier::external_body]
pub(crate) fn parallel_map<T: Sync, R: Send, F: Fn(&T) -> R + Sync + Send>(
    items: &Vec<T>,
    f: F,
) -> (results: Vec<R>)
    requires
        forall|i: int| 0 <= i < items.len() ==> call_requires(f, (&#[trigger] items@[i],)),
    ensures
        results.len() == items.len(),
        forall|i: int|
            0 <= i < items.len() ==> call_ensures(f, (&items@[i],), #[trigger] results@[i]),
{
    rayon::iter::ParallelIterator::collect(
        rayon::iter::ParallelIterator::map(rayon::iter::IntoParallelRefIterator::par_iter(items), f),
    )
}

/// The numbers from 0 up to `last`, both included.
pub fn count_up_to(last: usize) -> (numbers: Vec<usize>)
    requires
        last < usize::MAX,
    ensures
        numbers.len() == last + 1,
        forall|i: int| 0 <= i <= last ==> #[trigger] numbers@[i] == i,
{
    let mut numbers: Vec<usize> = Vec::new();
    let mut n: usize = 0;
    while n <= last
        invariant
            last < usize::MAX,
            n <= last + 1,
            numbers.len() == n,
            forall|i: int| 0 <= i < n ==> #[trigger] numbers@[i] == i,
        decreases last + 1 - n,
    {
        numbers.push(n);
        n += 1;
    }
    numbers
}

/// Two sequences with the same items keep the same items when one function
/// is applied to each item of both.
pub proof fn lemma_same_items_mapped<A, B>(a: Seq<A>, b: Seq<A>, f: spec_fn(A) -> B)
    requires
        a.to_multiset() == b.to_multiset(),
    ensures
        a.map_values(f).to_multiset() == b.map_values(f).to_multiset(),
    decreases a.len(),
{
    broadcast use vstd::seq_lib::group_to_multiset_ensures;

    a.to_multiset_ensures();
    b.to_multiset_ensures();
    assert(a.len() == b.len());
    if a.len() == 0 {
        assert(a.map_values(f) =~= b.map_values(f));
    } else {
        let x = a.last();
        assert(a.contains(x));
        assert(b.to_multiset().count(x) > 0);
        assert(b.contains(x));
        let j = choose|j: int| 0 <= j < b.len() && b[j] == x;
        let a1 = a.drop_last();
        let b1 = b.remove(j);
        assert(a1 =~= a.remove(a.len() - 1));
        assert(a1.to_multiset() =~= a.to_multiset().remove(x));
        assert(b1.to_multiset() =~= b.to_multiset().remove(x));
        lemma_same_items_mapped(a1, b1, f);
        let ma = a.map_values(f);
        let mb = b.map_values(f);
        assert(ma.remove(a.len() - 1) =~= a1.map_values(f));
        assert(mb.remove(j) =~= b1.map_values(f));
        assert(ma.to_multiset() =~= a1.map_values(f).to_multiset().insert(f(x))) by {
            vstd::seq_lib::to_multiset_remove(ma, a.len() - 1);
            assert(ma[a.len() - 1] == f(x));
        }
        assert(mb.to_multiset() =~= b1.map_values(f).to_multiset().insert(f(x))) by {
            vstd::seq_lib::to_multiset_remove(mb, j);
            assert(mb[j] == f(x));
        }
    }
}

} // verus!
