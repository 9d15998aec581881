//! The order in which the systems of a database run.

use vstd::prelude::*;

verus! {

/// Why systems cannot be ordered.
#[derive(Clone, Copy, Debug, PartialEq, Eq, Structural)]
pub enum OrderError {
    /// A system runs, directly or not, after itself.
    Cycle,
    /// A system runs after a system that is not registered.
    Unregistered,
}

impl OrderError {
    /// The message that stands for an error.
    pub open spec fn wording(self) -> Seq<char> {
        match self {
            OrderError::Cycle => "system run_after cycle"@,
            OrderError::Unregistered => "system depends on a handle that is not registered"@,
        }
    }

    /// The message that stands for an error.
    pub fn message(self) -> (text: &'static str)
        ensures
            text@ == self.wording(),
    {
        match self {
            OrderError::Cycle => "system run_after cycle",
            OrderError::Unregistered => "system depends on a handle that is not registered",
        }
    }
}

/// For each system the systems that it runs after.
pub type After = Seq<Seq<usize>>;

/// What `after` lists are.
pub open spec fn after_view(after: Seq<Vec<usize>>) -> After {
    after.map_values(|list: Vec<usize>| list@)
}

/// Orders a system behind what it runs after: `path` is on the way to it, and
/// `order` is ordered already.
pub open spec fn visited(after: After, system: usize, path: Seq<usize>, order: Seq<usize>) -> Result<
    Seq<usize>,
    OrderError,
>
    decreases after.len() - path.len(), 0nat,
{
    if order.contains(system) {
        Ok(order)
    } else if path.contains(system) || path.len() >= after.len() {
        Err(OrderError::Cycle)
    } else {
        match visited_all(after, after[system as int], path.push(system), order) {
            Ok(order) => Ok(order.push(system)),
            Err(error) => Err(error),
        }
    }
}

/// Orders several systems, one after the other.
pub open spec fn visited_all(
    after: After,
    systems: Seq<usize>,
    path: Seq<usize>,
    order: Seq<usize>,
) -> Result<Seq<usize>, OrderError>
    decreases after.len() - path.len(), systems.len() + 1,
{
    if systems.len() == 0 {
        Ok(order)
    } else {
        match visited_all(after, systems.drop_last(), path, order) {
            Ok(order) => if systems.last() >= after.len() {
                Err(OrderError::Unregistered)
            } else {
                visited(after, systems.last(), path, order)
            },
            Err(error) => Err(error),
        }
    }
}

/// The numbers below `count`.
pub open spec fn numbers(count: nat) -> Seq<usize> {
    Seq::new(count, |i: int| i as usize)
}

/// The order of all systems: each behind what it runs after, and otherwise as
/// registered.
pub open spec fn system_order_of(after: After) -> Result<Seq<usize>, OrderError> {
    visited_all(after, numbers(after.len()), Seq::empty(), Seq::empty())
}

fn lists(numbers: &Vec<usize>, number: usize) -> (listed: bool)
    ensures
        listed == numbers@.contains(number),
{
    let mut i: usize = 0;
    while i < numbers.len()
        invariant
            i <= numbers@.len(),
            forall|j: int| 0 <= j < i ==> numbers@[j] != number,
        decreases numbers@.len() - i,
    {
        if numbers[i] == number {
            assert(numbers@[i as int] == number);
            return true;
        }
        i = i + 1;
    }
    false
}

fn visit_system(
    after: &Vec<Vec<usize>>,
    system: usize,
    path: &mut Vec<usize>,
    order: &mut Vec<usize>,
) -> (visited_now: Result<(), OrderError>)
    requires
        system < after@.len(),
        old(path)@.len() <= after@.len(),
    ensures
        visited_now is Ok ==> final(path)@ == old(path)@,
        match visited_now {
            Ok(_) => visited(after_view(after@), system, old(path)@, old(order)@) == Ok::<
                Seq<usize>,
                OrderError,
            >(final(order)@),
            Err(error) => visited(after_view(after@), system, old(path)@, old(order)@) == Err::<
                Seq<usize>,
                OrderError,
            >(error),
        },
    decreases after@.len() - old(path)@.len(), 0nat,
{
    if lists(order, system) {
        return Ok(());
    }
    if lists(path, system) || path.len() >= after.len() {
        return Err(OrderError::Cycle);
    }
    path.push(system);
    assert(after_view(after@)[system as int] == after@[system as int]@);
    match visit_all(after, &after[system], path, order) {
        Ok(_) => {
            path.pop();
            assert(path@ =~= old(path)@);
            order.push(system);
            Ok(())
        },
        Err(error) => Err(error),
    }
}

fn visit_all(
    after: &Vec<Vec<usize>>,
    systems: &Vec<usize>,
    path: &mut Vec<usize>,
    order: &mut Vec<usize>,
) -> (visited_now: Result<(), OrderError>)
    requires
        old(path)@.len() <= after@.len(),
    ensures
        visited_now is Ok ==> final(path)@ == old(path)@,
        match visited_now {
            Ok(_) => visited_all(after_view(after@), systems@, old(path)@, old(order)@) == Ok::<
                Seq<usize>,
                OrderError,
            >(final(order)@),
            Err(error) => visited_all(after_view(after@), systems@, old(path)@, old(order)@)
                == Err::<Seq<usize>, OrderError>(error),
        },
    decreases after@.len() - old(path)@.len(), systems@.len() + 1,
{
    let ghost graph = after_view(after@);
    let mut i: usize = 0;
    while i < systems.len()
        invariant
            i <= systems@.len(),
            graph == after_view(after@),
            old(path)@.len() <= after@.len(),
            path@ == old(path)@,
            visited_all(graph, systems@.take(i as int), old(path)@, old(order)@) == Ok::<
                Seq<usize>,
                OrderError,
            >(order@),
        decreases systems@.len() - i,
    {
        assert(systems@.take(i + 1).drop_last() =~= systems@.take(i as int));
        assert(systems@.take(i + 1).last() == systems@[i as int]);
        let failed = if systems[i] >= after.len() {
            Some(OrderError::Unregistered)
        } else {
            match visit_system(after, systems[i], path, order) {
                Ok(_) => None,
                Err(error) => Some(error),
            }
        };
        if let Some(error) = failed {
            proof {
                lemma_error_stays(graph, systems@, i + 1, old(path)@, old(order)@);
            }
            return Err(error);
        }
        i = i + 1;
    }
    assert(systems@.take(systems@.len() as int) =~= systems@);
    Ok(())
}

proof fn lemma_error_stays(
    after: After,
    systems: Seq<usize>,
    done: int,
    path: Seq<usize>,
    order: Seq<usize>,
)
    requires
        0 <= done <= systems.len(),
        visited_all(after, systems.take(done), path, order) is Err,
    ensures
        visited_all(after, systems, path, order) == visited_all(
            after,
            systems.take(done),
            path,
            order,
        ),
    decreases systems.len() - done,
{
    if done == systems.len() {
        assert(systems.take(done) =~= systems);
    } else {
        assert(systems.take(done + 1).drop_last() =~= systems.take(done));
        lemma_error_stays(after, systems, done + 1, path, order);
    }
}

/// The order of all systems.
pub fn system_order(after: &Vec<Vec<usize>>) -> (order: Result<Vec<usize>, OrderError>)
    ensures
        match order {
            Ok(order) => system_order_of(after_view(after@)) == Ok::<Seq<usize>, OrderError>(
                order@,
            ),
            Err(error) => system_order_of(after_view(after@)) == Err::<Seq<usize>, OrderError>(
                error,
            ),
        },
{
    let mut all: Vec<usize> = Vec::new();
    let mut i: usize = 0;
    while i < after.len()
        invariant
            i <= after@.len(),
            all@ =~= numbers(i as nat),
        decreases after@.len() - i,
    {
        all.push(i);
        i = i + 1;
    }
    let mut path: Vec<usize> = Vec::new();
    let mut order: Vec<usize> = Vec::new();
    match visit_all(after, &all, &mut path, &mut order) {
        Ok(_) => Ok(order),
        Err(error) => Err(error),
    }
}

/// Whether a list of systems has no system twice, and each system behind all
/// that it runs after.
pub open spec fn well_ordered(after: After, order: Seq<usize>) -> bool {
    &&& order.no_duplicates()
    &&& forall|i: int| 0 <= i < order.len() ==> (#[trigger] order[i]) < after.len()
    &&& forall|i: int, k: int|
        #![trigger order[i], after[order[i] as int][k]]
        0 <= i < order.len() && 0 <= k < after[order[i] as int].len() ==> order.take(i).contains(
            after[order[i] as int][k],
        )
}

proof fn lemma_prefix_keeps(a: Seq<usize>, b: Seq<usize>, x: usize)
    requires
        a.is_prefix_of(b),
        a.contains(x),
    ensures
        b.contains(x),
{
    let i = choose|i: int| 0 <= i < a.len() && a[i] == x;
    assert(b[i] == x) by {
        assert(a == b.take(a.len() as int));
    }
}

proof fn lemma_visited_is_ordered(
    after: After,
    system: usize,
    path: Seq<usize>,
    order: Seq<usize>,
)
    requires
        system < after.len(),
        path.len() <= after.len(),
        well_ordered(after, order),
        visited(after, system, path, order) is Ok,
    ensures
        well_ordered(after, visited(after, system, path, order)->Ok_0),
        order.is_prefix_of(visited(after, system, path, order)->Ok_0),
        visited(after, system, path, order)->Ok_0.contains(system),
        forall|x: usize| #[trigger]
            visited(after, system, path, order)->Ok_0.contains(x) && path.contains(x)
                ==> order.contains(x),
    decreases after.len() - path.len(), 0nat,
{
    let result = visited(after, system, path, order)->Ok_0;
    if order.contains(system) {
        assert(result == order);
    } else {
        let longer = path.push(system);
        let behind = visited_all(after, after[system as int], longer, order)->Ok_0;
        lemma_all_visited_are_ordered(after, after[system as int], longer, order);
        assert(result == behind.push(system));
        assert(longer.contains(system)) by {
            assert(longer[path.len() as int] == system);
        }
        assert(!behind.contains(system));
        assert(result[behind.len() as int] == system);
        assert(well_ordered(after, result)) by {
            assert forall|i: int, k: int|
                #![trigger result[i], after[result[i] as int][k]]
                0 <= i < result.len() && 0 <= k < after[result[i] as int].len() implies result.take(
                i,
            ).contains(after[result[i] as int][k]) by {
                if i < behind.len() {
                    assert(result[i] == behind[i]);
                    assert(result.take(i) =~= behind.take(i));
                } else {
                    assert(result.take(i) =~= behind);
                }
            }
            assert(result.no_duplicates()) by {
                assert forall|i: int, j: int|
                    0 <= i < j < result.len() implies result[i] != result[j] by {
                    if j < behind.len() {
                        assert(behind[i] != behind[j]);
                    } else {
                        assert(behind.contains(behind[i]));
                    }
                }
            }
        }
        assert(order.is_prefix_of(result)) by {
            assert(order =~= result.take(order.len() as int)) by {
                assert(order == behind.take(order.len() as int));
            }
        }
        assert forall|x: usize| #[trigger] result.contains(x) && path.contains(x) implies
            order.contains(x) by {
            let i = choose|i: int| 0 <= i < result.len() && result[i] == x;
            if i < behind.len() {
                assert(behind[i] == x);
                assert(behind.contains(x));
                let k = choose|k: int| 0 <= k < path.len() && path[k] == x;
                assert(longer[k] == x);
            }
        }
    }
}

proof fn lemma_all_visited_are_ordered(
    after: After,
    systems: Seq<usize>,
    path: Seq<usize>,
    order: Seq<usize>,
)
    requires
        path.len() <= after.len(),
        well_ordered(after, order),
        visited_all(after, systems, path, order) is Ok,
    ensures
        well_ordered(after, visited_all(after, systems, path, order)->Ok_0),
        order.is_prefix_of(visited_all(after, systems, path, order)->Ok_0),
        forall|k: int|
            0 <= k < systems.len() ==> (#[trigger] systems[k]) < after.len() && visited_all(
                after,
                systems,
                path,
                order,
            )->Ok_0.contains(systems[k]),
        forall|x: usize| #[trigger]
            visited_all(after, systems, path, order)->Ok_0.contains(x) && path.contains(x)
                ==> order.contains(x),
    decreases after.len() - path.len(), systems.len() + 1,
{
    let result = visited_all(after, systems, path, order)->Ok_0;
    if systems.len() > 0 {
        let fewer = systems.drop_last();
        let middle = visited_all(after, fewer, path, order)->Ok_0;
        lemma_all_visited_are_ordered(after, fewer, path, order);
        lemma_visited_is_ordered(after, systems.last(), path, middle);
        assert forall|k: int| 0 <= k < systems.len() implies (#[trigger] systems[k]) < after.len()
            && result.contains(systems[k]) by {
            if k < fewer.len() {
                assert(fewer[k] == systems[k]);
                lemma_prefix_keeps(middle, result, systems[k]);
            }
        }
        assert(order.is_prefix_of(result)) by {
            assert(order == middle.take(order.len() as int));
            assert(middle == result.take(middle.len() as int));
            assert(order =~= result.take(order.len() as int));
        }
        assert forall|x: usize| #[trigger] result.contains(x) && path.contains(x) implies
            order.contains(x) by {
            assert(middle.contains(x));
        }
    } else {
        assert(order =~= order.take(order.len() as int));
    }
}

/// Every system is in the order exactly once, and behind all that it runs after.
pub proof fn lemma_order_respects_run_after(after: After)
    requires
        after.len() <= usize::MAX,
        system_order_of(after) is Ok,
    ensures
        well_ordered(after, system_order_of(after)->Ok_0),
        forall|system: usize|
            system < after.len() <==> #[trigger] system_order_of(after)->Ok_0.contains(system),
{
    let order = system_order_of(after)->Ok_0;
    let all = numbers(after.len());
    lemma_all_visited_are_ordered(after, all, Seq::empty(), Seq::empty());
    assert forall|system: usize|
        system < after.len() <==> #[trigger] order.contains(system) by {
        if system < after.len() {
            assert(all[system as int] == system);
        }
        if order.contains(system) {
            let i = choose|i: int| 0 <= i < order.len() && order[i] == system;
            assert(order[i] < after.len());
        }
    }
}

/// Whether every system that another runs after is registered and ranks below
/// it.
pub open spec fn ranked(after: After, ranks: spec_fn(usize) -> nat) -> bool {
    forall|i: usize, k: int|
        #![trigger after[i as int][k]]
        i < after.len() && 0 <= k < after[i as int].len() ==> after[i as int][k] < after.len()
            && ranks(after[i as int][k]) < ranks(i)
}

proof fn lemma_distinct_numbers_are_few(path: Seq<usize>, bound: nat)
    requires
        path.no_duplicates(),
        forall|i: int| 0 <= i < path.len() ==> (#[trigger] path[i]) < bound,
    ensures
        path.len() <= bound,
{
    path.unique_seq_to_set();
    let numbers = path.map_values(|x: usize| x as int);
    assert(numbers.no_duplicates()) by {
        assert forall|i: int, j: int|
            0 <= i < numbers.len() && 0 <= j < numbers.len() && i != j implies numbers[i]
            != numbers[j] by {
            assert(path[i] != path[j]);
        }
    }
    numbers.unique_seq_to_set();
    let range = vstd::set_lib::set_int_range(0, bound as int);
    vstd::set_lib::lemma_int_range(0, bound as int);
    assert(numbers.to_set().subset_of(range)) by {
        assert forall|x: int| numbers.to_set().contains(x) implies range.contains(x) by {
            let i = choose|i: int| 0 <= i < numbers.len() && numbers[i] == x;
            assert(path[i] < bound);
        }
    }
    vstd::set_lib::lemma_len_subset(numbers.to_set(), range);
}

/// What `path` demands of the next system: it ranks below all of the path, whose
/// systems are registered and distinct.
pub open spec fn descending(
    after: After,
    ranks: spec_fn(usize) -> nat,
    path: Seq<usize>,
    system: usize,
) -> bool {
    &&& path.no_duplicates()
    &&& forall|i: int| 0 <= i < path.len() ==> (#[trigger] path[i]) < after.len()
    &&& forall|i: int| 0 <= i < path.len() ==> ranks(system) < ranks(#[trigger] path[i])
}

proof fn lemma_ranked_is_visited(
    after: After,
    ranks: spec_fn(usize) -> nat,
    system: usize,
    path: Seq<usize>,
    order: Seq<usize>,
)
    requires
        ranked(after, ranks),
        system < after.len(),
        descending(after, ranks, path, system),
    ensures
        visited(after, system, path, order) is Ok,
        path.len() < after.len(),
    decreases after.len() - path.len(), 0nat,
{
    let longer = path.push(system);
    assert(!path.contains(system)) by {
        if path.contains(system) {
            let i = choose|i: int| 0 <= i < path.len() && path[i] == system;
            assert(ranks(system) < ranks(path[i]));
        }
    }
    assert(longer.no_duplicates()) by {
        assert forall|i: int, j: int| 0 <= i < j < longer.len() implies longer[i] != longer[j] by {
            if j == path.len() {
                assert(path.contains(path[i]));
            }
        }
    }
    lemma_distinct_numbers_are_few(longer, after.len());
    if !order.contains(system) {
        let systems = after[system as int];
        assert forall|k: int| 0 <= k < systems.len() implies (#[trigger] systems[k]) < after.len()
            && descending(after, ranks, longer, systems[k]) by {
            assert(after[system as int][k] < after.len());
            assert forall|i: int| 0 <= i < longer.len() implies ranks(systems[k]) < ranks(
                #[trigger] longer[i],
            ) by {
                if i < path.len() {
                    assert(ranks(system) < ranks(path[i]));
                }
            }
        }
        lemma_all_ranked_are_visited(after, ranks, systems, longer, order);
    }
}

proof fn lemma_all_ranked_are_visited(
    after: After,
    ranks: spec_fn(usize) -> nat,
    systems: Seq<usize>,
    path: Seq<usize>,
    order: Seq<usize>,
)
    requires
        ranked(after, ranks),
        path.len() <= after.len(),
        forall|k: int|
            0 <= k < systems.len() ==> (#[trigger] systems[k]) < after.len() && descending(
                after,
                ranks,
                path,
                systems[k],
            ),
    ensures
        visited_all(after, systems, path, order) is Ok,
    decreases after.len() - path.len(), systems.len() + 1,
{
    if systems.len() > 0 {
        let fewer = systems.drop_last();
        assert forall|k: int| 0 <= k < fewer.len() implies (#[trigger] fewer[k]) < after.len()
            && descending(after, ranks, path, fewer[k]) by {
            assert(systems[k] < after.len());
        }
        lemma_all_ranked_are_visited(after, ranks, fewer, path, order);
        assert(systems[systems.len() - 1] < after.len());
        lemma_ranked_is_visited(
            after,
            ranks,
            systems.last(),
            path,
            visited_all(after, fewer, path, order)->Ok_0,
        );
    }
}

/// Systems can be ordered if and only if every system that another runs after is
/// registered, and no system runs, directly or not, after itself: the systems can
/// be ranked.
pub proof fn lemma_order_exists(after: After)
    requires
        after.len() <= usize::MAX,
    ensures
        system_order_of(after) is Ok <==> exists|ranks: spec_fn(usize) -> nat| ranked(after, ranks),
{
    if exists|ranks: spec_fn(usize) -> nat| ranked(after, ranks) {
        let ranks = choose|ranks: spec_fn(usize) -> nat| ranked(after, ranks);
        let all = numbers(after.len());
        assert forall|k: int| 0 <= k < all.len() implies (#[trigger] all[k]) < after.len()
            && descending(after, ranks, Seq::empty(), all[k]) by {}
        lemma_all_ranked_are_visited(after, ranks, all, Seq::empty(), Seq::empty());
    }
    if system_order_of(after) is Ok {
        let order = system_order_of(after)->Ok_0;
        lemma_order_respects_run_after(after);
        let ranks = |system: usize| order.index_of(system) as nat;
        assert(ranked(after, ranks)) by {
            assert forall|i: usize, k: int|
                #![trigger after[i as int][k]]
                i < after.len() && 0 <= k < after[i as int].len() implies after[i as int][k]
                < after.len() && ranks(after[i as int][k]) < ranks(i) by {
                let at = order.index_of(i);
                let other = after[i as int][k];
                assert(order.contains(i));
                assert(0 <= at < order.len() && order[at] == i);
                assert(order.take(at).contains(after[order[at] as int][k]));
                let j = choose|j: int| 0 <= j < order.take(at).len() && order.take(at)[j] == other;
                assert(order[j] == other);
                assert(order.contains(other));
                let found = order.index_of(other);
                assert(order[found] == other);
                if found != j {
                    assert(order[found] != order[j]);
                }
            }
        }
    }
}

} // verus!
