//! Counting through the combinations of several row lists.

use vstd::arithmetic::div_mod::lemma_fundamental_div_mod_converse;
use vstd::prelude::*;

verus! {

/// How many combinations the first `count` lengths have.
pub open spec fn total(lengths: Seq<usize>, count: nat) -> nat
    decreases count,
{
    if count == 0 {
        1
    } else {
        total(lengths, (count - 1) as nat) * lengths[count - 1] as nat
    }
}

/// The number of a combination: the last index turns fastest.
pub open spec fn number(indices: Seq<usize>, lengths: Seq<usize>, count: nat) -> nat
    decreases count,
{
    if count == 0 {
        0
    } else {
        number(indices, lengths, (count - 1) as nat) * lengths[count - 1] as nat + indices[count
            - 1] as nat
    }
}

/// The combination of a number.
pub open spec fn combination(lengths: Seq<usize>, n: nat) -> Seq<usize>
    decreases lengths.len(),
{
    if lengths.len() == 0 {
        Seq::empty()
    } else {
        combination(lengths.drop_last(), n / (lengths.last() as nat)).push(
            (n % (lengths.last() as nat)) as usize,
        )
    }
}

/// Whether every index is below its length.
pub open spec fn in_range(indices: Seq<usize>, lengths: Seq<usize>) -> bool {
    &&& indices.len() == lengths.len()
    &&& forall|i: int| 0 <= i < indices.len() ==> (#[trigger] indices[i]) < lengths[i]
}

proof fn lemma_step(
    before: Seq<usize>,
    after: Seq<usize>,
    lengths: Seq<usize>,
    position: int,
    count: nat,
)
    requires
        before.len() == lengths.len(),
        after.len() == lengths.len(),
        0 <= position < count <= lengths.len(),
        forall|i: int| 0 <= i < position ==> after[i] == #[trigger] before[i],
        after[position] == before[position] + 1,
        forall|i: int|
            position < i < count ==> (#[trigger] before[i]) + 1 == lengths[i] && after[i] == 0,
    ensures
        number(after, lengths, count) == number(before, lengths, count) + 1,
    decreases count,
{
    if count == position + 1 {
        lemma_same_prefix(before, after, lengths, position as nat);
    } else {
        let fewer = (count - 1) as nat;
        lemma_step(before, after, lengths, position, fewer);
        let low = number(before, lengths, fewer);
        let length = lengths[count - 1] as nat;
        assert((low + 1) * length == low * length + length) by (nonlinear_arith);
        assert(before[count - 1] + 1 == lengths[count - 1]);
    }
}

proof fn lemma_same_prefix(a: Seq<usize>, b: Seq<usize>, lengths: Seq<usize>, count: nat)
    requires
        a.len() == lengths.len(),
        b.len() == lengths.len(),
        count <= lengths.len(),
        forall|i: int| 0 <= i < count ==> b[i] == #[trigger] a[i],
    ensures
        number(a, lengths, count) == number(b, lengths, count),
    decreases count,
{
    if count > 0 {
        lemma_same_prefix(a, b, lengths, (count - 1) as nat);
        assert(b[count - 1] == a[count - 1]);
    }
}

proof fn lemma_full(indices: Seq<usize>, lengths: Seq<usize>, count: nat)
    requires
        indices.len() == lengths.len(),
        count <= lengths.len(),
        forall|i: int| 0 <= i < count ==> (#[trigger] indices[i]) + 1 == lengths[i],
    ensures
        number(indices, lengths, count) + 1 == total(lengths, count),
    decreases count,
{
    if count > 0 {
        let fewer = (count - 1) as nat;
        lemma_full(indices, lengths, fewer);
        let low = number(indices, lengths, fewer);
        let length = lengths[count - 1] as nat;
        assert((low + 1) * length == low * length + length) by (nonlinear_arith);
        assert(indices[count - 1] + 1 == lengths[count - 1]);
    }
}

/// A combination's number is below the number of combinations.
pub proof fn lemma_number_below_total(indices: Seq<usize>, lengths: Seq<usize>, count: nat)
    requires
        in_range(indices, lengths),
        count <= lengths.len(),
    ensures
        number(indices, lengths, count) < total(lengths, count),
    decreases count,
{
    if count > 0 {
        let fewer = (count - 1) as nat;
        lemma_number_below_total(indices, lengths, fewer);
        let low = number(indices, lengths, fewer);
        let high = total(lengths, fewer);
        let length = lengths[count - 1] as nat;
        let index = indices[count - 1] as nat;
        assert(indices[count - 1] < lengths[count - 1]);
        assert(low * length + index < high * length) by (nonlinear_arith)
            requires
                low + 1 <= high,
                index < length,
        ;
    }
}

proof fn lemma_number_of_prefix(
    indices: Seq<usize>,
    lengths: Seq<usize>,
    more_indices: Seq<usize>,
    more: Seq<usize>,
    count: nat,
)
    requires
        count <= lengths.len() <= more.len(),
        indices.len() == lengths.len(),
        more_indices.len() == more.len(),
        forall|i: int| 0 <= i < lengths.len() ==> lengths[i] == #[trigger] more[i],
        forall|i: int| 0 <= i < lengths.len() ==> indices[i] == #[trigger] more_indices[i],
    ensures
        number(indices, lengths, count) == number(more_indices, more, count),
    decreases count,
{
    if count > 0 {
        lemma_number_of_prefix(indices, lengths, more_indices, more, (count - 1) as nat);
        assert(lengths[count - 1] == more[count - 1]);
        assert(indices[count - 1] == more_indices[count - 1]);
    }
}

/// Counting is exact: each number below the total has one combination, and each
/// combination has the number that it is the combination of.
pub proof fn lemma_combination_of_number(indices: Seq<usize>, lengths: Seq<usize>)
    requires
        in_range(indices, lengths),
    ensures
        combination(lengths, number(indices, lengths, lengths.len())) == indices,
    decreases lengths.len(),
{
    if lengths.len() == 0 {
        assert(indices =~= Seq::empty());
    } else {
        let count = lengths.len();
        let fewer = lengths.drop_last();
        let before = indices.drop_last();
        assert(in_range(before, fewer)) by {
            assert forall|i: int| 0 <= i < before.len() implies (#[trigger] before[i])
                < fewer[i] by {
                assert(indices[i] < lengths[i]);
            }
        }
        lemma_combination_of_number(before, fewer);
        lemma_number_of_prefix(before, fewer, indices, lengths, fewer.len());
        let low = number(indices, lengths, (count - 1) as nat);
        let length = lengths.last() as int;
        let index = indices.last() as int;
        assert(indices[count - 1] < lengths[count - 1]);
        let n = number(indices, lengths, count) as int;
        assert(n == low as int * length + index);
        assert(low as int * length == length * low as int) by (nonlinear_arith);
        lemma_fundamental_div_mod_converse(n, length, low as int, index);
        assert(combination(lengths, n as nat) =~= indices);
    }
}

/// Moves on to the next combination; `false` once all were seen, with all
/// indices back at zero.
pub fn advance_indices(indices: &mut Vec<usize>, lengths: &Vec<usize>) -> (more: bool)
    requires
        in_range(old(indices)@, lengths@),
    ensures
        in_range(final(indices)@, lengths@),
        more ==> number(final(indices)@, lengths@, lengths@.len()) == number(
            old(indices)@,
            lengths@,
            lengths@.len(),
        ) + 1,
        !more ==> number(old(indices)@, lengths@, lengths@.len()) + 1 == total(
            lengths@,
            lengths@.len(),
        ),
        !more ==> forall|i: int| 0 <= i < final(indices)@.len() ==> final(indices)@[i] == 0,
{
    let ghost before = indices@;
    let mut position: usize = indices.len();
    while position > 0
        invariant
            before == old(indices)@,
            in_range(before, lengths@),
            in_range(indices@, lengths@),
            position <= indices@.len(),
            forall|i: int| 0 <= i < position ==> indices@[i] == #[trigger] before[i],
            forall|i: int|
                position <= i < indices@.len() ==> (#[trigger] before[i]) + 1 == lengths@[i]
                    && indices@[i] == 0,
        decreases position,
    {
        position = position - 1;
        assert(before[position as int] < lengths@[position as int]);
        let next: usize = indices[position] + 1;
        if next < lengths[position] {
            indices.set(position, next);
            proof {
                lemma_step(before, indices@, lengths@, position as int, lengths@.len());
            }
            return true;
        }
        indices.set(position, 0);
    }
    proof {
        lemma_full(before, lengths@, lengths@.len());
        assert forall|i: int| 0 <= i < indices@.len() implies indices@[i] == 0 by {
            assert(before[i] + 1 == lengths@[i]);
        }
    }
    false
}

} // verus!
