//! Putting instructions in the order of their positions.

use vstd::prelude::*;
use vstd::seq_lib::lemma_multiset_commutative;
use crate::inst::Inst;

verus! {

/// Positions never decrease along `s`.
pub open spec fn ascending(s: Seq<Inst>) -> bool {
    forall|i: int, j: int| 0 <= i <= j < s.len() ==> s[i].idx <= s[j].idx
}

/// The instructions of `s` whose position is `p`, in their order.
pub open spec fn at_position(s: Seq<Inst>, p: usize) -> Seq<Inst> {
    s.filter(|inst: Inst| inst.idx == p)
}

/// Where no instruction of `s` has position `p`, none is found there.
proof fn lemma_none_at_position(s: Seq<Inst>, p: usize)
    requires
        forall|k: int| 0 <= k < s.len() ==> (#[trigger] s[k]).idx != p,
    ensures
        at_position(s, p) == Seq::<Inst>::empty(),
    decreases s.len(),
{
    reveal(Seq::filter);
    if s.len() > 0 {
        lemma_none_at_position(s.drop_last(), p);
    }
}

/// Merges two ascending runs into one. Of two instructions with the same position the
/// one from `left` comes first.
fn merge(left: &Vec<Inst>, right: &Vec<Inst>) -> (merged: Vec<Inst>)
    requires
        ascending(left@),
        ascending(right@),
    ensures
        ascending(merged@),
        merged@.to_multiset() == left@.to_multiset().add(right@.to_multiset()),
        forall|p: usize| #[trigger]
            at_position(merged@, p) == at_position(left@, p) + at_position(right@, p),
{
    let mut merged: Vec<Inst> = Vec::new();
    let mut i: usize = 0;
    let mut j: usize = 0;
    proof {
        broadcast use vstd::seq_lib::group_to_multiset_ensures;

        reveal(Seq::filter);
        assert(merged@.to_multiset() =~= left@.take(0).to_multiset().add(
            right@.take(0).to_multiset(),
        ));
    }
    while i < left.len() || j < right.len()
        invariant
            i <= left.len(),
            j <= right.len(),
            ascending(left@),
            ascending(right@),
            ascending(merged@),
            merged@.to_multiset() == left@.take(i as int).to_multiset().add(
                right@.take(j as int).to_multiset(),
            ),
            forall|p: usize| #[trigger]
                at_position(merged@, p) == at_position(left@.take(i as int), p) + at_position(
                    right@.take(j as int),
                    p,
                ),
            forall|k: int|
                0 <= k < merged.len() && i < left.len() ==> merged[k].idx <= left[i as int].idx,
            forall|k: int|
                0 <= k < merged.len() && j < right.len() ==> merged[k].idx <= right[j as int].idx,
            forall|k: int| 0 <= k < j && i < left.len() ==> right[k].idx < left[i as int].idx,
        decreases left.len() - i + right.len() - j,
    {
        let from_left = if i < left.len() {
            if j < right.len() {
                left[i].idx <= right[j].idx
            } else {
                true
            }
        } else {
            false
        };
        broadcast use vstd::seq_lib::group_to_multiset_ensures;

        let ghost before = merged@;
        if from_left {
            let next = left[i];
            proof {
                assert(left@.take(i + 1) == left@.take(i as int).push(next));
                lemma_none_at_position(right@.take(j as int), next.idx);
                assert forall|p: usize| #[trigger]
                    at_position(before.push(next), p) == at_position(left@.take(i + 1), p)
                        + at_position(right@.take(j as int), p) by {
                    let l = at_position(left@.take(i as int), p);
                    let r = at_position(right@.take(j as int), p);
                    assert(at_position(before, p) == l + r);
                    before.lemma_filter_push(next, |inst: Inst| inst.idx == p);
                    left@.take(i as int).lemma_filter_push(next, |inst: Inst| inst.idx == p);
                    if next.idx == p {
                        assert((l + r).push(next) =~= l.push(next) + r);
                    }
                }
            }
            merged.push(next);
            i += 1;
        } else {
            let next = right[j];
            proof {
                assert(right@.take(j + 1) == right@.take(j as int).push(next));
                assert forall|p: usize| #[trigger]
                    at_position(before.push(next), p) == at_position(left@.take(i as int), p)
                        + at_position(right@.take(j + 1), p) by {
                    let l = at_position(left@.take(i as int), p);
                    let r = at_position(right@.take(j as int), p);
                    assert(at_position(before, p) == l + r);
                    before.lemma_filter_push(next, |inst: Inst| inst.idx == p);
                    right@.take(j as int).lemma_filter_push(next, |inst: Inst| inst.idx == p);
                    if next.idx == p {
                        assert((l + r).push(next) =~= l + r.push(next));
                    }
                }
            }
            merged.push(next);
            j += 1;
        }
    }
    assert(left@.take(i as int) == left@);
    assert(right@.take(j as int) == right@);
    merged
}

/// Sorts `program` by position. The sort is stable: instructions with the same
/// position keep their order.
pub fn sort_by_position(program: Vec<Inst>) -> (sorted: Vec<Inst>)
    ensures
        ascending(sorted@),
        sorted@.to_multiset() == program@.to_multiset(),
        forall|p: usize| #[trigger] at_position(sorted@, p) == at_position(program@, p),
    decreases program.len(),
{
    if program.len() <= 1 {
        return program;
    }
    let mut left = program;
    let right = left.split_off(left.len() / 2);
    proof {
        assert(program@ == left@ + right@);
        lemma_multiset_commutative(left@, right@);
        assert forall|p: usize| #[trigger]
            at_position(program@, p) == at_position(left@, p) + at_position(right@, p) by {
            Seq::filter_distributes_over_add(left@, right@, |inst: Inst| inst.idx == p);
        }
    }
    let left = sort_by_position(left);
    let right = sort_by_position(right);
    merge(&left, &right)
}

} // verus!
