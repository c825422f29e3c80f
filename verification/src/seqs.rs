//! Small helpers over sequences: removing a set of positions, and testing
//! whether all items are equal.

use vstd::prelude::*;
use vstd::std_specs::cmp::PartialEqSpec;

verus! {

/// The elements of `s` whose positions are not listed in `ixs`, in their order.
pub open spec fn without_positions<A>(s: Seq<A>, ixs: Seq<usize>) -> Seq<A>
    decreases s.len(),
{
    if s.len() == 0 {
        s
    } else {
        let init = without_positions(s.drop_last(), ixs);
        if ixs.contains((s.len() - 1) as usize) {
            init
        } else {
            init.push(s.last())
        }
    }
}

/// `ixs` is strictly increasing and every entry is a position of a sequence of length `len`.
pub open spec fn valid_positions(ixs: Seq<usize>, len: nat) -> bool {
    &&& increasing(ixs)
    &&& forall|i: int| 0 <= i < ixs.len() ==> ixs[i] < len
}

/// Number of entries of `ixs` below `m`.
pub open spec fn count_below(ixs: Seq<usize>, m: int) -> nat
    decreases ixs.len(),
{
    if ixs.len() == 0 {
        0
    } else {
        count_below(ixs.drop_last(), m) + if ixs.last() < m { 1nat } else { 0nat }
    }
}

/// `ixs` is strictly increasing.
pub open spec fn increasing(ixs: Seq<usize>) -> bool {
    forall|i: int, j: int| 0 <= i < j < ixs.len() ==> ixs[i] < ixs[j]
}

proof fn lemma_count_below_step(ixs: Seq<usize>, m: usize)
    requires
        increasing(ixs),
    ensures
        count_below(ixs, m + 1) == count_below(ixs, m as int) + if ixs.contains(m) { 1nat } else { 0nat },
    decreases ixs.len(),
{
    if ixs.len() > 0 {
        let init = ixs.drop_last();
        lemma_count_below_step(init, m);
        if ixs.last() == m {
            assert(ixs.contains(m)) by {
                assert(ixs[ixs.len() - 1] == m);
            }
            assert(!init.contains(m)) by {
                if init.contains(m) {
                    let k = choose|k: int| 0 <= k < init.len() && init[k] == m;
                    assert(ixs[k] < ixs[ixs.len() - 1]);
                }
            }
        } else {
            if init.contains(m) {
                let k = choose|k: int| 0 <= k < init.len() && init[k] == m;
                assert(ixs[k] == m);
            }
            if ixs.contains(m) {
                let k = choose|k: int| 0 <= k < ixs.len() && ixs[k] == m;
                assert(k != ixs.len() - 1);
                assert(init[k] == m);
            }
        }
    }
}

proof fn lemma_count_below_zero(ixs: Seq<usize>)
    ensures
        count_below(ixs, 0) == 0,
    decreases ixs.len(),
{
    if ixs.len() > 0 {
        lemma_count_below_zero(ixs.drop_last());
    }
}

proof fn lemma_count_below_all(ixs: Seq<usize>, m: int)
    requires
        forall|i: int| 0 <= i < ixs.len() ==> ixs[i] < m,
    ensures
        count_below(ixs, m) == ixs.len(),
    decreases ixs.len(),
{
    if ixs.len() > 0 {
        lemma_count_below_all(ixs.drop_last(), m);
    }
}

proof fn lemma_without_positions_len_below<A>(s: Seq<A>, ixs: Seq<usize>)
    requires
        increasing(ixs),
        s.len() <= usize::MAX,
    ensures
        without_positions(s, ixs).len() + count_below(ixs, s.len() as int) == s.len(),
    decreases s.len(),
{
    if s.len() > 0 {
        let m = (s.len() - 1) as usize;
        lemma_without_positions_len_below(s.drop_last(), ixs);
        lemma_count_below_step(ixs, m);
        assert(s.drop_last().len() == m);
        assert(m + 1 == s.len());
        assert(without_positions(s, ixs).len() == without_positions(s.drop_last(), ixs).len() + if ixs.contains(m) { 0int } else { 1int });
        assert(count_below(ixs, s.len() as int) == count_below(ixs, m + 1));
        assert(count_below(ixs, s.drop_last().len() as int) == count_below(ixs, m as int));
    } else {
        lemma_count_below_zero(ixs);
    }
}

/// Removing the listed positions shortens the sequence by the number of
/// positions listed.
pub proof fn lemma_without_positions_len<A>(s: Seq<A>, ixs: Seq<usize>)
    requires
        s.len() <= usize::MAX,
        valid_positions(ixs, s.len()),
    ensures
        without_positions(s, ixs).len() == s.len() - ixs.len(),
{
    lemma_without_positions_len_below(s, ixs);
    lemma_count_below_all(ixs, s.len() as int);
}

/// Removes the elements at the given positions.
pub trait RemoveAll: Sized {
    /// The contents of the collection, in order.
    spec fn contents(&self) -> Seq<Self::Item>;

    /// The type of the elements.
    type Item;

    fn remove_all(&mut self, ixs: &[usize])
        requires
            valid_positions(ixs@, old(self).contents().len()),
        ensures
            final(self).contents() == without_positions(old(self).contents(), ixs@);
}

impl<T> RemoveAll for Vec<T> {
    type Item = T;

    open spec fn contents(&self) -> Seq<T> {
        self@
    }

    fn remove_all(&mut self, ixs: &[usize]) {
        let mut old: Vec<T> = Vec::new();
        std::mem::swap(self, &mut old);
        let ghost orig = old@;
        let n = old.len();
        let mut ix: usize = 0;
        let mut next: usize = 0;
        for x in it: old
            invariant
                orig == it.seq(),
                n == orig.len(),
                ix == it.index(),
                valid_positions(ixs@, orig.len()),
                0 <= next <= ixs@.len(),
                forall|k: int| 0 <= k < next ==> ixs@[k] < ix,
                forall|k: int| next <= k < ixs@.len() ==> ixs@[k] >= ix,
                self@ == without_positions(orig.take(ix as int), ixs@),
        {
            let ghost prefix = orig.take(ix as int);
            assert(orig.take(ix + 1).drop_last() == prefix);
            assert(orig.take(ix + 1).last() == x);
            if next < ixs.len() && ixs[next] <= ix {
                assert(ixs@.contains(ix));
                next += 1;
            } else {
                assert(!ixs@.contains(ix)) by {
                    if ixs@.contains(ix) {
                        let k = choose|k: int| 0 <= k < ixs@.len() && ixs@[k] == ix;
                        if k < next {
                        } else if k > next {
                            assert(ixs@[next as int] < ixs@[k]);
                        }
                    }
                }
                self.push(x);
            }
            ix += 1;
        }
        assert(orig.take(n as int) == orig);
    }
}

/// Whether every item after the first compares equal to the first (true for an
/// empty slice).
pub fn all_equal<T: PartialEq>(items: &[T]) -> (r: bool)
    ensures
        T::obeys_eq_spec() ==> (r <==> forall|i: int| 1 <= i < items@.len() ==> items@[0].eq_spec(&items@[i])),
{
    if items.len() == 0 {
        return true;
    }
    let first = &items[0];
    let mut i: usize = 1;
    while i < items.len()
        invariant
            1 <= i <= items@.len(),
            *first == items@[0],
            T::obeys_eq_spec() ==> forall|k: int| 1 <= k < i ==> items@[0].eq_spec(&items@[k]),
        decreases items@.len() - i,
    {
        if *first != items[i] {
            return false;
        }
        i += 1;
    }
    true
}

} // verus!
