//! What longer and shorter sequences contain.

use vstd::prelude::*;

verus! {

/// One more element is contained, besides what was.
pub proof fn lemma_pushed<A>(list: Seq<A>, last: A, item: A)
    ensures
        list.push(last).contains(item) <==> (list.contains(item) || item == last),
{
    let all = list.push(last);
    if list.contains(item) {
        let i = choose|i: int| 0 <= i < list.len() && list[i] == item;
        assert(all[i] == item);
    }
    if all.contains(item) && item != last {
        let i = choose|i: int| 0 <= i < all.len() && all[i] == item;
        assert(list[i] == item);
    }
    assert(all[list.len() as int] == last);
}

/// A sequence contains its last element and what the others are.
pub proof fn lemma_last<A>(list: Seq<A>, item: A)
    requires
        list.len() > 0,
    ensures
        list.contains(item) <==> (list.drop_last().contains(item) || item == list.last()),
{
    assert(list =~= list.drop_last().push(list.last()));
    lemma_pushed(list.drop_last(), list.last(), item);
}

/// Two sequences one behind the other contain what either does.
pub proof fn lemma_joined<A>(first: Seq<A>, second: Seq<A>, item: A)
    ensures
        (first + second).contains(item) <==> (first.contains(item) || second.contains(item)),
{
    let all = first + second;
    if first.contains(item) {
        let i = choose|i: int| 0 <= i < first.len() && first[i] == item;
        assert(all[i] == item);
    }
    if second.contains(item) {
        let i = choose|i: int| 0 <= i < second.len() && second[i] == item;
        assert(all[first.len() + i] == item);
    }
    if all.contains(item) {
        let i = choose|i: int| 0 <= i < all.len() && all[i] == item;
        if i < first.len() {
            assert(first[i] == item);
        } else {
            assert(second[i - first.len()] == item);
        }
    }
}

} // verus!
