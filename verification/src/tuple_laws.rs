//! What tuples stand for: every field counts, in order.

use crate::commands::Bundle;
use crate::component::{Component, ComponentId, ComponentType, RelationshipTarget};
use crate::declare::{DeclarationList, FacetKind, ShapePart};
use crate::entity::Entity;
use crate::filter::ArgBundle;
use crate::projection::{ExternalReadQueryParam, ExternalReadQueryPart};
use crate::query::PartMode;
use crate::seq_laws::lemma_joined;
use crate::state::take::TakeBundle;
use vstd::prelude::*;

verus! {

/// A bundle of one component holds what each of its components means, and nothing else.
pub proof fn lemma_bundle_of_one<
    T0: ComponentType,
>(bundle: (T0,))
    ensures
        bundle.facts().len() == 1,
        bundle.facts()[0] == bundle.0.meaning(),
{
}

/// A bundle of two components holds what each of its components means, and nothing else.
pub proof fn lemma_bundle_of_two<
    T0: ComponentType,
    T1: ComponentType<Universe = T0::Universe>,
>(bundle: (T0, T1))
    ensures
        bundle.facts().len() == 2,
        bundle.facts()[0] == bundle.0.meaning(),
        bundle.facts()[1] == bundle.1.meaning(),
{
}

/// A bundle of three components holds what each of its components means, and nothing else.
pub proof fn lemma_bundle_of_three<
    T0: ComponentType,
    T1: ComponentType<Universe = T0::Universe>,
    T2: ComponentType<Universe = T0::Universe>,
>(bundle: (T0, T1, T2))
    ensures
        bundle.facts().len() == 3,
        bundle.facts()[0] == bundle.0.meaning(),
        bundle.facts()[1] == bundle.1.meaning(),
        bundle.facts()[2] == bundle.2.meaning(),
{
}

/// A bundle of four components holds what each of its components means, and nothing else.
pub proof fn lemma_bundle_of_four<
    T0: ComponentType,
    T1: ComponentType<Universe = T0::Universe>,
    T2: ComponentType<Universe = T0::Universe>,
    T3: ComponentType<Universe = T0::Universe>,
>(bundle: (T0, T1, T2, T3))
    ensures
        bundle.facts().len() == 4,
        bundle.facts()[0] == bundle.0.meaning(),
        bundle.facts()[1] == bundle.1.meaning(),
        bundle.facts()[2] == bundle.2.meaning(),
        bundle.facts()[3] == bundle.3.meaning(),
{
}

/// A bundle of five components holds what each of its components means, and nothing else.
pub proof fn lemma_bundle_of_five<
    T0: ComponentType,
    T1: ComponentType<Universe = T0::Universe>,
    T2: ComponentType<Universe = T0::Universe>,
    T3: ComponentType<Universe = T0::Universe>,
    T4: ComponentType<Universe = T0::Universe>,
>(bundle: (T0, T1, T2, T3, T4))
    ensures
        bundle.facts().len() == 5,
        bundle.facts()[0] == bundle.0.meaning(),
        bundle.facts()[1] == bundle.1.meaning(),
        bundle.facts()[2] == bundle.2.meaning(),
        bundle.facts()[3] == bundle.3.meaning(),
        bundle.facts()[4] == bundle.4.meaning(),
{
}

/// A bundle of six components holds what each of its components means, and nothing else.
pub proof fn lemma_bundle_of_six<
    T0: ComponentType,
    T1: ComponentType<Universe = T0::Universe>,
    T2: ComponentType<Universe = T0::Universe>,
    T3: ComponentType<Universe = T0::Universe>,
    T4: ComponentType<Universe = T0::Universe>,
    T5: ComponentType<Universe = T0::Universe>,
>(bundle: (T0, T1, T2, T3, T4, T5))
    ensures
        bundle.facts().len() == 6,
        bundle.facts()[0] == bundle.0.meaning(),
        bundle.facts()[1] == bundle.1.meaning(),
        bundle.facts()[2] == bundle.2.meaning(),
        bundle.facts()[3] == bundle.3.meaning(),
        bundle.facts()[4] == bundle.4.meaning(),
        bundle.facts()[5] == bundle.5.meaning(),
{
}

/// A bundle of seven components holds what each of its components means, and nothing else.
pub proof fn lemma_bundle_of_seven<
    T0: ComponentType,
    T1: ComponentType<Universe = T0::Universe>,
    T2: ComponentType<Universe = T0::Universe>,
    T3: ComponentType<Universe = T0::Universe>,
    T4: ComponentType<Universe = T0::Universe>,
    T5: ComponentType<Universe = T0::Universe>,
    T6: ComponentType<Universe = T0::Universe>,
>(bundle: (T0, T1, T2, T3, T4, T5, T6))
    ensures
        bundle.facts().len() == 7,
        bundle.facts()[0] == bundle.0.meaning(),
        bundle.facts()[1] == bundle.1.meaning(),
        bundle.facts()[2] == bundle.2.meaning(),
        bundle.facts()[3] == bundle.3.meaning(),
        bundle.facts()[4] == bundle.4.meaning(),
        bundle.facts()[5] == bundle.5.meaning(),
        bundle.facts()[6] == bundle.6.meaning(),
{
}

/// A bundle of eight components holds what each of its components means, and nothing else.
pub proof fn lemma_bundle_of_eight<
    T0: ComponentType,
    T1: ComponentType<Universe = T0::Universe>,
    T2: ComponentType<Universe = T0::Universe>,
    T3: ComponentType<Universe = T0::Universe>,
    T4: ComponentType<Universe = T0::Universe>,
    T5: ComponentType<Universe = T0::Universe>,
    T6: ComponentType<Universe = T0::Universe>,
    T7: ComponentType<Universe = T0::Universe>,
>(bundle: (T0, T1, T2, T3, T4, T5, T6, T7))
    ensures
        bundle.facts().len() == 8,
        bundle.facts()[0] == bundle.0.meaning(),
        bundle.facts()[1] == bundle.1.meaning(),
        bundle.facts()[2] == bundle.2.meaning(),
        bundle.facts()[3] == bundle.3.meaning(),
        bundle.facts()[4] == bundle.4.meaning(),
        bundle.facts()[5] == bundle.5.meaning(),
        bundle.facts()[6] == bundle.6.meaning(),
        bundle.facts()[7] == bundle.7.meaning(),
{
}

/// One bundle of arguments in a tuple binds what it does alone.
pub proof fn lemma_arguments_of_one<
    T0: ArgBundle,
>(bundle: (T0,))
    ensures
        ({
            let all = bundle.arguments();
            let n0 = bundle.0.arguments().len() as int;
            &&& all.len() == n0
            &&& all.subrange(0, n0) == bundle.0.arguments()
        }),
{
    let all = bundle.arguments();
    let n0 = bundle.0.arguments().len() as int;
    assert(all.subrange(0, n0) =~= bundle.0.arguments());
}

/// Two bundles of arguments bind what each of them does, in order.
pub proof fn lemma_arguments_of_two<
    T0: ArgBundle,
    T1: ArgBundle<Universe = T0::Universe>,
>(bundle: (T0, T1))
    ensures
        ({
            let all = bundle.arguments();
            let n0 = bundle.0.arguments().len() as int;
            let n1 = n0 + bundle.1.arguments().len() as int;
            &&& all.len() == n1
            &&& all.subrange(0, n0) == bundle.0.arguments()
            &&& all.subrange(n0, n1) == bundle.1.arguments()
        }),
{
    let all = bundle.arguments();
    let n0 = bundle.0.arguments().len() as int;
    let n1 = n0 + bundle.1.arguments().len() as int;
    assert(all.subrange(0, n0) =~= bundle.0.arguments());
    assert(all.subrange(n0, n1) =~= bundle.1.arguments());
}

/// Three bundles of arguments bind what each of them does, in order.
pub proof fn lemma_arguments_of_three<
    T0: ArgBundle,
    T1: ArgBundle<Universe = T0::Universe>,
    T2: ArgBundle<Universe = T0::Universe>,
>(bundle: (T0, T1, T2))
    ensures
        ({
            let all = bundle.arguments();
            let n0 = bundle.0.arguments().len() as int;
            let n1 = n0 + bundle.1.arguments().len() as int;
            let n2 = n1 + bundle.2.arguments().len() as int;
            &&& all.len() == n2
            &&& all.subrange(0, n0) == bundle.0.arguments()
            &&& all.subrange(n0, n1) == bundle.1.arguments()
            &&& all.subrange(n1, n2) == bundle.2.arguments()
        }),
{
    let all = bundle.arguments();
    let n0 = bundle.0.arguments().len() as int;
    let n1 = n0 + bundle.1.arguments().len() as int;
    let n2 = n1 + bundle.2.arguments().len() as int;
    assert(all.subrange(0, n0) =~= bundle.0.arguments());
    assert(all.subrange(n0, n1) =~= bundle.1.arguments());
    assert(all.subrange(n1, n2) =~= bundle.2.arguments());
}

/// Four bundles of arguments bind what each of them does, in order.
pub proof fn lemma_arguments_of_four<
    T0: ArgBundle,
    T1: ArgBundle<Universe = T0::Universe>,
    T2: ArgBundle<Universe = T0::Universe>,
    T3: ArgBundle<Universe = T0::Universe>,
>(bundle: (T0, T1, T2, T3))
    ensures
        ({
            let all = bundle.arguments();
            let n0 = bundle.0.arguments().len() as int;
            let n1 = n0 + bundle.1.arguments().len() as int;
            let n2 = n1 + bundle.2.arguments().len() as int;
            let n3 = n2 + bundle.3.arguments().len() as int;
            &&& all.len() == n3
            &&& all.subrange(0, n0) == bundle.0.arguments()
            &&& all.subrange(n0, n1) == bundle.1.arguments()
            &&& all.subrange(n1, n2) == bundle.2.arguments()
            &&& all.subrange(n2, n3) == bundle.3.arguments()
        }),
{
    let all = bundle.arguments();
    let n0 = bundle.0.arguments().len() as int;
    let n1 = n0 + bundle.1.arguments().len() as int;
    let n2 = n1 + bundle.2.arguments().len() as int;
    let n3 = n2 + bundle.3.arguments().len() as int;
    assert(all.subrange(0, n0) =~= bundle.0.arguments());
    assert(all.subrange(n0, n1) =~= bundle.1.arguments());
    assert(all.subrange(n1, n2) =~= bundle.2.arguments());
    assert(all.subrange(n2, n3) =~= bundle.3.arguments());
}

/// Five bundles of arguments bind what each of them does, in order.
pub proof fn lemma_arguments_of_five<
    T0: ArgBundle,
    T1: ArgBundle<Universe = T0::Universe>,
    T2: ArgBundle<Universe = T0::Universe>,
    T3: ArgBundle<Universe = T0::Universe>,
    T4: ArgBundle<Universe = T0::Universe>,
>(bundle: (T0, T1, T2, T3, T4))
    ensures
        ({
            let all = bundle.arguments();
            let n0 = bundle.0.arguments().len() as int;
            let n1 = n0 + bundle.1.arguments().len() as int;
            let n2 = n1 + bundle.2.arguments().len() as int;
            let n3 = n2 + bundle.3.arguments().len() as int;
            let n4 = n3 + bundle.4.arguments().len() as int;
            &&& all.len() == n4
            &&& all.subrange(0, n0) == bundle.0.arguments()
            &&& all.subrange(n0, n1) == bundle.1.arguments()
            &&& all.subrange(n1, n2) == bundle.2.arguments()
            &&& all.subrange(n2, n3) == bundle.3.arguments()
            &&& all.subrange(n3, n4) == bundle.4.arguments()
        }),
{
    let all = bundle.arguments();
    let n0 = bundle.0.arguments().len() as int;
    let n1 = n0 + bundle.1.arguments().len() as int;
    let n2 = n1 + bundle.2.arguments().len() as int;
    let n3 = n2 + bundle.3.arguments().len() as int;
    let n4 = n3 + bundle.4.arguments().len() as int;
    assert(all.subrange(0, n0) =~= bundle.0.arguments());
    assert(all.subrange(n0, n1) =~= bundle.1.arguments());
    assert(all.subrange(n1, n2) =~= bundle.2.arguments());
    assert(all.subrange(n2, n3) =~= bundle.3.arguments());
    assert(all.subrange(n3, n4) =~= bundle.4.arguments());
}

/// Six bundles of arguments bind what each of them does, in order.
pub proof fn lemma_arguments_of_six<
    T0: ArgBundle,
    T1: ArgBundle<Universe = T0::Universe>,
    T2: ArgBundle<Universe = T0::Universe>,
    T3: ArgBundle<Universe = T0::Universe>,
    T4: ArgBundle<Universe = T0::Universe>,
    T5: ArgBundle<Universe = T0::Universe>,
>(bundle: (T0, T1, T2, T3, T4, T5))
    ensures
        ({
            let all = bundle.arguments();
            let n0 = bundle.0.arguments().len() as int;
            let n1 = n0 + bundle.1.arguments().len() as int;
            let n2 = n1 + bundle.2.arguments().len() as int;
            let n3 = n2 + bundle.3.arguments().len() as int;
            let n4 = n3 + bundle.4.arguments().len() as int;
            let n5 = n4 + bundle.5.arguments().len() as int;
            &&& all.len() == n5
            &&& all.subrange(0, n0) == bundle.0.arguments()
            &&& all.subrange(n0, n1) == bundle.1.arguments()
            &&& all.subrange(n1, n2) == bundle.2.arguments()
            &&& all.subrange(n2, n3) == bundle.3.arguments()
            &&& all.subrange(n3, n4) == bundle.4.arguments()
            &&& all.subrange(n4, n5) == bundle.5.arguments()
        }),
{
    let all = bundle.arguments();
    let n0 = bundle.0.arguments().len() as int;
    let n1 = n0 + bundle.1.arguments().len() as int;
    let n2 = n1 + bundle.2.arguments().len() as int;
    let n3 = n2 + bundle.3.arguments().len() as int;
    let n4 = n3 + bundle.4.arguments().len() as int;
    let n5 = n4 + bundle.5.arguments().len() as int;
    assert(all.subrange(0, n0) =~= bundle.0.arguments());
    assert(all.subrange(n0, n1) =~= bundle.1.arguments());
    assert(all.subrange(n1, n2) =~= bundle.2.arguments());
    assert(all.subrange(n2, n3) =~= bundle.3.arguments());
    assert(all.subrange(n3, n4) =~= bundle.4.arguments());
    assert(all.subrange(n4, n5) =~= bundle.5.arguments());
}

/// Seven bundles of arguments bind what each of them does, in order.
pub proof fn lemma_arguments_of_seven<
    T0: ArgBundle,
    T1: ArgBundle<Universe = T0::Universe>,
    T2: ArgBundle<Universe = T0::Universe>,
    T3: ArgBundle<Universe = T0::Universe>,
    T4: ArgBundle<Universe = T0::Universe>,
    T5: ArgBundle<Universe = T0::Universe>,
    T6: ArgBundle<Universe = T0::Universe>,
>(bundle: (T0, T1, T2, T3, T4, T5, T6))
    ensures
        ({
            let all = bundle.arguments();
            let n0 = bundle.0.arguments().len() as int;
            let n1 = n0 + bundle.1.arguments().len() as int;
            let n2 = n1 + bundle.2.arguments().len() as int;
            let n3 = n2 + bundle.3.arguments().len() as int;
            let n4 = n3 + bundle.4.arguments().len() as int;
            let n5 = n4 + bundle.5.arguments().len() as int;
            let n6 = n5 + bundle.6.arguments().len() as int;
            &&& all.len() == n6
            &&& all.subrange(0, n0) == bundle.0.arguments()
            &&& all.subrange(n0, n1) == bundle.1.arguments()
            &&& all.subrange(n1, n2) == bundle.2.arguments()
            &&& all.subrange(n2, n3) == bundle.3.arguments()
            &&& all.subrange(n3, n4) == bundle.4.arguments()
            &&& all.subrange(n4, n5) == bundle.5.arguments()
            &&& all.subrange(n5, n6) == bundle.6.arguments()
        }),
{
    let all = bundle.arguments();
    let n0 = bundle.0.arguments().len() as int;
    let n1 = n0 + bundle.1.arguments().len() as int;
    let n2 = n1 + bundle.2.arguments().len() as int;
    let n3 = n2 + bundle.3.arguments().len() as int;
    let n4 = n3 + bundle.4.arguments().len() as int;
    let n5 = n4 + bundle.5.arguments().len() as int;
    let n6 = n5 + bundle.6.arguments().len() as int;
    assert(all.subrange(0, n0) =~= bundle.0.arguments());
    assert(all.subrange(n0, n1) =~= bundle.1.arguments());
    assert(all.subrange(n1, n2) =~= bundle.2.arguments());
    assert(all.subrange(n2, n3) =~= bundle.3.arguments());
    assert(all.subrange(n3, n4) =~= bundle.4.arguments());
    assert(all.subrange(n4, n5) =~= bundle.5.arguments());
    assert(all.subrange(n5, n6) =~= bundle.6.arguments());
}

/// Eight bundles of arguments bind what each of them does, in order.
pub proof fn lemma_arguments_of_eight<
    T0: ArgBundle,
    T1: ArgBundle<Universe = T0::Universe>,
    T2: ArgBundle<Universe = T0::Universe>,
    T3: ArgBundle<Universe = T0::Universe>,
    T4: ArgBundle<Universe = T0::Universe>,
    T5: ArgBundle<Universe = T0::Universe>,
    T6: ArgBundle<Universe = T0::Universe>,
    T7: ArgBundle<Universe = T0::Universe>,
>(bundle: (T0, T1, T2, T3, T4, T5, T6, T7))
    ensures
        ({
            let all = bundle.arguments();
            let n0 = bundle.0.arguments().len() as int;
            let n1 = n0 + bundle.1.arguments().len() as int;
            let n2 = n1 + bundle.2.arguments().len() as int;
            let n3 = n2 + bundle.3.arguments().len() as int;
            let n4 = n3 + bundle.4.arguments().len() as int;
            let n5 = n4 + bundle.5.arguments().len() as int;
            let n6 = n5 + bundle.6.arguments().len() as int;
            let n7 = n6 + bundle.7.arguments().len() as int;
            &&& all.len() == n7
            &&& all.subrange(0, n0) == bundle.0.arguments()
            &&& all.subrange(n0, n1) == bundle.1.arguments()
            &&& all.subrange(n1, n2) == bundle.2.arguments()
            &&& all.subrange(n2, n3) == bundle.3.arguments()
            &&& all.subrange(n3, n4) == bundle.4.arguments()
            &&& all.subrange(n4, n5) == bundle.5.arguments()
            &&& all.subrange(n5, n6) == bundle.6.arguments()
            &&& all.subrange(n6, n7) == bundle.7.arguments()
        }),
{
    let all = bundle.arguments();
    let n0 = bundle.0.arguments().len() as int;
    let n1 = n0 + bundle.1.arguments().len() as int;
    let n2 = n1 + bundle.2.arguments().len() as int;
    let n3 = n2 + bundle.3.arguments().len() as int;
    let n4 = n3 + bundle.4.arguments().len() as int;
    let n5 = n4 + bundle.5.arguments().len() as int;
    let n6 = n5 + bundle.6.arguments().len() as int;
    let n7 = n6 + bundle.7.arguments().len() as int;
    assert(all.subrange(0, n0) =~= bundle.0.arguments());
    assert(all.subrange(n0, n1) =~= bundle.1.arguments());
    assert(all.subrange(n1, n2) =~= bundle.2.arguments());
    assert(all.subrange(n2, n3) =~= bundle.3.arguments());
    assert(all.subrange(n3, n4) =~= bundle.4.arguments());
    assert(all.subrange(n4, n5) =~= bundle.5.arguments());
    assert(all.subrange(n5, n6) =~= bundle.6.arguments());
    assert(all.subrange(n6, n7) =~= bundle.7.arguments());
}

/// A query for an entity with one component reads each of them.
pub proof fn lemma_row_data_of_one<
    C: Component,
    P0: ExternalReadQueryPart<C>,
>()
    ensures
        ({
            let parts = <(Entity, P0) as ExternalReadQueryParam<C>>::row_parts();
            &&& parts.len() == 1
            &&& parts[0].component == P0::read_kind() && parts[0].mode == PartMode::Read
        }),
{
}

/// A query for an entity with two components reads each of them.
pub proof fn lemma_row_data_of_two<
    C: Component,
    P0: ExternalReadQueryPart<C>,
    P1: ExternalReadQueryPart<C>,
>()
    ensures
        ({
            let parts = <(Entity, P0, P1) as ExternalReadQueryParam<C>>::row_parts();
            &&& parts.len() == 2
            &&& parts[0].component == P0::read_kind() && parts[0].mode == PartMode::Read
            &&& parts[1].component == P1::read_kind() && parts[1].mode == PartMode::Read
        }),
{
}

/// A query for an entity with three components reads each of them.
pub proof fn lemma_row_data_of_three<
    C: Component,
    P0: ExternalReadQueryPart<C>,
    P1: ExternalReadQueryPart<C>,
    P2: ExternalReadQueryPart<C>,
>()
    ensures
        ({
            let parts = <(Entity, P0, P1, P2) as ExternalReadQueryParam<C>>::row_parts();
            &&& parts.len() == 3
            &&& parts[0].component == P0::read_kind() && parts[0].mode == PartMode::Read
            &&& parts[1].component == P1::read_kind() && parts[1].mode == PartMode::Read
            &&& parts[2].component == P2::read_kind() && parts[2].mode == PartMode::Read
        }),
{
}

/// A query for an entity with four components reads each of them.
pub proof fn lemma_row_data_of_four<
    C: Component,
    P0: ExternalReadQueryPart<C>,
    P1: ExternalReadQueryPart<C>,
    P2: ExternalReadQueryPart<C>,
    P3: ExternalReadQueryPart<C>,
>()
    ensures
        ({
            let parts = <(Entity, P0, P1, P2, P3) as ExternalReadQueryParam<C>>::row_parts();
            &&& parts.len() == 4
            &&& parts[0].component == P0::read_kind() && parts[0].mode == PartMode::Read
            &&& parts[1].component == P1::read_kind() && parts[1].mode == PartMode::Read
            &&& parts[2].component == P2::read_kind() && parts[2].mode == PartMode::Read
            &&& parts[3].component == P3::read_kind() && parts[3].mode == PartMode::Read
        }),
{
}

/// A query for an entity with five components reads each of them.
pub proof fn lemma_row_data_of_five<
    C: Component,
    P0: ExternalReadQueryPart<C>,
    P1: ExternalReadQueryPart<C>,
    P2: ExternalReadQueryPart<C>,
    P3: ExternalReadQueryPart<C>,
    P4: ExternalReadQueryPart<C>,
>()
    ensures
        ({
            let parts = <(Entity, P0, P1, P2, P3, P4) as ExternalReadQueryParam<C>>::row_parts();
            &&& parts.len() == 5
            &&& parts[0].component == P0::read_kind() && parts[0].mode == PartMode::Read
            &&& parts[1].component == P1::read_kind() && parts[1].mode == PartMode::Read
            &&& parts[2].component == P2::read_kind() && parts[2].mode == PartMode::Read
            &&& parts[3].component == P3::read_kind() && parts[3].mode == PartMode::Read
            &&& parts[4].component == P4::read_kind() && parts[4].mode == PartMode::Read
        }),
{
}

/// A query for an entity with six components reads each of them.
pub proof fn lemma_row_data_of_six<
    C: Component,
    P0: ExternalReadQueryPart<C>,
    P1: ExternalReadQueryPart<C>,
    P2: ExternalReadQueryPart<C>,
    P3: ExternalReadQueryPart<C>,
    P4: ExternalReadQueryPart<C>,
    P5: ExternalReadQueryPart<C>,
>()
    ensures
        ({
            let parts = <(Entity, P0, P1, P2, P3, P4, P5) as ExternalReadQueryParam<C>>::row_parts();
            &&& parts.len() == 6
            &&& parts[0].component == P0::read_kind() && parts[0].mode == PartMode::Read
            &&& parts[1].component == P1::read_kind() && parts[1].mode == PartMode::Read
            &&& parts[2].component == P2::read_kind() && parts[2].mode == PartMode::Read
            &&& parts[3].component == P3::read_kind() && parts[3].mode == PartMode::Read
            &&& parts[4].component == P4::read_kind() && parts[4].mode == PartMode::Read
            &&& parts[5].component == P5::read_kind() && parts[5].mode == PartMode::Read
        }),
{
}

/// A query for an entity with seven components reads each of them.
pub proof fn lemma_row_data_of_seven<
    C: Component,
    P0: ExternalReadQueryPart<C>,
    P1: ExternalReadQueryPart<C>,
    P2: ExternalReadQueryPart<C>,
    P3: ExternalReadQueryPart<C>,
    P4: ExternalReadQueryPart<C>,
    P5: ExternalReadQueryPart<C>,
    P6: ExternalReadQueryPart<C>,
>()
    ensures
        ({
            let parts = <(Entity, P0, P1, P2, P3, P4, P5, P6) as ExternalReadQueryParam<C>>::row_parts();
            &&& parts.len() == 7
            &&& parts[0].component == P0::read_kind() && parts[0].mode == PartMode::Read
            &&& parts[1].component == P1::read_kind() && parts[1].mode == PartMode::Read
            &&& parts[2].component == P2::read_kind() && parts[2].mode == PartMode::Read
            &&& parts[3].component == P3::read_kind() && parts[3].mode == PartMode::Read
            &&& parts[4].component == P4::read_kind() && parts[4].mode == PartMode::Read
            &&& parts[5].component == P5::read_kind() && parts[5].mode == PartMode::Read
            &&& parts[6].component == P6::read_kind() && parts[6].mode == PartMode::Read
        }),
{
}

/// A query for an entity with eight components reads each of them.
pub proof fn lemma_row_data_of_eight<
    C: Component,
    P0: ExternalReadQueryPart<C>,
    P1: ExternalReadQueryPart<C>,
    P2: ExternalReadQueryPart<C>,
    P3: ExternalReadQueryPart<C>,
    P4: ExternalReadQueryPart<C>,
    P5: ExternalReadQueryPart<C>,
    P6: ExternalReadQueryPart<C>,
    P7: ExternalReadQueryPart<C>,
>()
    ensures
        ({
            let parts = <(Entity, P0, P1, P2, P3, P4, P5, P6, P7) as ExternalReadQueryParam<C>>::row_parts();
            &&& parts.len() == 8
            &&& parts[0].component == P0::read_kind() && parts[0].mode == PartMode::Read
            &&& parts[1].component == P1::read_kind() && parts[1].mode == PartMode::Read
            &&& parts[2].component == P2::read_kind() && parts[2].mode == PartMode::Read
            &&& parts[3].component == P3::read_kind() && parts[3].mode == PartMode::Read
            &&& parts[4].component == P4::read_kind() && parts[4].mode == PartMode::Read
            &&& parts[5].component == P5::read_kind() && parts[5].mode == PartMode::Read
            &&& parts[6].component == P6::read_kind() && parts[6].mode == PartMode::Read
            &&& parts[7].component == P7::read_kind() && parts[7].mode == PartMode::Read
        }),
{
}

/// A query for one component reads it, a query for an entity alone reads nothing, and
/// a part reads the component type that it names.
pub proof fn lemma_row_data_of_a_reference<'a, C: Component, T: ComponentType<Universe = C>>()
    ensures
        <&'a T as ExternalReadQueryPart<C>>::read_kind() == T::key(),
        <&'a T as ExternalReadQueryParam<C>>::row_parts().len() == 1,
        <&'a T as ExternalReadQueryParam<C>>::row_parts()[0].component == T::key(),
        <&'a T as ExternalReadQueryParam<C>>::row_parts()[0].mode == PartMode::Read,
        <Entity as ExternalReadQueryParam<C>>::row_parts().len() == 0,
{
}

/// Taking two bundles takes what each of them does, one behind the other, and hands
/// out what each of them took.
pub proof fn lemma_taking_two<
    T0: TakeBundle,
    T1: TakeBundle<Universe = T0::Universe>,
>(output: (T0::Output, T1::Output))
    ensures
        ({
            let wanted = <(T0, T1) as TakeBundle>::wanted();
            let w0 = T0::wanted().len() as int;
            let w1 = w0 + T1::wanted().len() as int;
            &&& wanted.len() == w1
            &&& wanted.subrange(0, w0) == T0::wanted()
            &&& wanted.subrange(w0, w1) == T1::wanted()
        }),
        ({
            let contents = <(T0, T1) as TakeBundle>::contents(output);
            let n0 = T0::contents(output.0).len() as int;
            let n1 = n0 + T1::contents(output.1).len() as int;
            &&& contents.len() == n1
            &&& contents.subrange(0, n0) == T0::contents(output.0)
            &&& contents.subrange(n0, n1) == T1::contents(output.1)
        }),
{
    let wanted = <(T0, T1) as TakeBundle>::wanted();
    let w0 = T0::wanted().len() as int;
    let w1 = w0 + T1::wanted().len() as int;
    assert(wanted.subrange(0, w0) =~= T0::wanted());
    assert(wanted.subrange(w0, w1) =~= T1::wanted());
    let contents = <(T0, T1) as TakeBundle>::contents(output);
    let n0 = T0::contents(output.0).len() as int;
    let n1 = n0 + T1::contents(output.1).len() as int;
    assert(contents.subrange(0, n0) =~= T0::contents(output.0));
    assert(contents.subrange(n0, n1) =~= T1::contents(output.1));
}

/// Taking three bundles takes what each of them does, one behind the other, and hands
/// out what each of them took.
pub proof fn lemma_taking_three<
    T0: TakeBundle,
    T1: TakeBundle<Universe = T0::Universe>,
    T2: TakeBundle<Universe = T0::Universe>,
>(output: (T0::Output, T1::Output, T2::Output))
    ensures
        ({
            let wanted = <(T0, T1, T2) as TakeBundle>::wanted();
            let w0 = T0::wanted().len() as int;
            let w1 = w0 + T1::wanted().len() as int;
            let w2 = w1 + T2::wanted().len() as int;
            &&& wanted.len() == w2
            &&& wanted.subrange(0, w0) == T0::wanted()
            &&& wanted.subrange(w0, w1) == T1::wanted()
            &&& wanted.subrange(w1, w2) == T2::wanted()
        }),
        ({
            let contents = <(T0, T1, T2) as TakeBundle>::contents(output);
            let n0 = T0::contents(output.0).len() as int;
            let n1 = n0 + T1::contents(output.1).len() as int;
            let n2 = n1 + T2::contents(output.2).len() as int;
            &&& contents.len() == n2
            &&& contents.subrange(0, n0) == T0::contents(output.0)
            &&& contents.subrange(n0, n1) == T1::contents(output.1)
            &&& contents.subrange(n1, n2) == T2::contents(output.2)
        }),
{
    let wanted = <(T0, T1, T2) as TakeBundle>::wanted();
    let w0 = T0::wanted().len() as int;
    let w1 = w0 + T1::wanted().len() as int;
    let w2 = w1 + T2::wanted().len() as int;
    assert(wanted.subrange(0, w0) =~= T0::wanted());
    assert(wanted.subrange(w0, w1) =~= T1::wanted());
    assert(wanted.subrange(w1, w2) =~= T2::wanted());
    let contents = <(T0, T1, T2) as TakeBundle>::contents(output);
    let n0 = T0::contents(output.0).len() as int;
    let n1 = n0 + T1::contents(output.1).len() as int;
    let n2 = n1 + T2::contents(output.2).len() as int;
    assert(contents.subrange(0, n0) =~= T0::contents(output.0));
    assert(contents.subrange(n0, n1) =~= T1::contents(output.1));
    assert(contents.subrange(n1, n2) =~= T2::contents(output.2));
}

/// Taking four bundles takes what each of them does, one behind the other, and hands
/// out what each of them took.
pub proof fn lemma_taking_four<
    T0: TakeBundle,
    T1: TakeBundle<Universe = T0::Universe>,
    T2: TakeBundle<Universe = T0::Universe>,
    T3: TakeBundle<Universe = T0::Universe>,
>(output: (T0::Output, T1::Output, T2::Output, T3::Output))
    ensures
        ({
            let wanted = <(T0, T1, T2, T3) as TakeBundle>::wanted();
            let w0 = T0::wanted().len() as int;
            let w1 = w0 + T1::wanted().len() as int;
            let w2 = w1 + T2::wanted().len() as int;
            let w3 = w2 + T3::wanted().len() as int;
            &&& wanted.len() == w3
            &&& wanted.subrange(0, w0) == T0::wanted()
            &&& wanted.subrange(w0, w1) == T1::wanted()
            &&& wanted.subrange(w1, w2) == T2::wanted()
            &&& wanted.subrange(w2, w3) == T3::wanted()
        }),
        ({
            let contents = <(T0, T1, T2, T3) as TakeBundle>::contents(output);
            let n0 = T0::contents(output.0).len() as int;
            let n1 = n0 + T1::contents(output.1).len() as int;
            let n2 = n1 + T2::contents(output.2).len() as int;
            let n3 = n2 + T3::contents(output.3).len() as int;
            &&& contents.len() == n3
            &&& contents.subrange(0, n0) == T0::contents(output.0)
            &&& contents.subrange(n0, n1) == T1::contents(output.1)
            &&& contents.subrange(n1, n2) == T2::contents(output.2)
            &&& contents.subrange(n2, n3) == T3::contents(output.3)
        }),
{
    let wanted = <(T0, T1, T2, T3) as TakeBundle>::wanted();
    let w0 = T0::wanted().len() as int;
    let w1 = w0 + T1::wanted().len() as int;
    let w2 = w1 + T2::wanted().len() as int;
    let w3 = w2 + T3::wanted().len() as int;
    assert(wanted.subrange(0, w0) =~= T0::wanted());
    assert(wanted.subrange(w0, w1) =~= T1::wanted());
    assert(wanted.subrange(w1, w2) =~= T2::wanted());
    assert(wanted.subrange(w2, w3) =~= T3::wanted());
    let contents = <(T0, T1, T2, T3) as TakeBundle>::contents(output);
    let n0 = T0::contents(output.0).len() as int;
    let n1 = n0 + T1::contents(output.1).len() as int;
    let n2 = n1 + T2::contents(output.2).len() as int;
    let n3 = n2 + T3::contents(output.3).len() as int;
    assert(contents.subrange(0, n0) =~= T0::contents(output.0));
    assert(contents.subrange(n0, n1) =~= T1::contents(output.1));
    assert(contents.subrange(n1, n2) =~= T2::contents(output.2));
    assert(contents.subrange(n2, n3) =~= T3::contents(output.3));
}

/// Taking five bundles takes what each of them does, one behind the other, and hands
/// out what each of them took.
pub proof fn lemma_taking_five<
    T0: TakeBundle,
    T1: TakeBundle<Universe = T0::Universe>,
    T2: TakeBundle<Universe = T0::Universe>,
    T3: TakeBundle<Universe = T0::Universe>,
    T4: TakeBundle<Universe = T0::Universe>,
>(output: (T0::Output, T1::Output, T2::Output, T3::Output, T4::Output))
    ensures
        ({
            let wanted = <(T0, T1, T2, T3, T4) as TakeBundle>::wanted();
            let w0 = T0::wanted().len() as int;
            let w1 = w0 + T1::wanted().len() as int;
            let w2 = w1 + T2::wanted().len() as int;
            let w3 = w2 + T3::wanted().len() as int;
            let w4 = w3 + T4::wanted().len() as int;
            &&& wanted.len() == w4
            &&& wanted.subrange(0, w0) == T0::wanted()
            &&& wanted.subrange(w0, w1) == T1::wanted()
            &&& wanted.subrange(w1, w2) == T2::wanted()
            &&& wanted.subrange(w2, w3) == T3::wanted()
            &&& wanted.subrange(w3, w4) == T4::wanted()
        }),
        ({
            let contents = <(T0, T1, T2, T3, T4) as TakeBundle>::contents(output);
            let n0 = T0::contents(output.0).len() as int;
            let n1 = n0 + T1::contents(output.1).len() as int;
            let n2 = n1 + T2::contents(output.2).len() as int;
            let n3 = n2 + T3::contents(output.3).len() as int;
            let n4 = n3 + T4::contents(output.4).len() as int;
            &&& contents.len() == n4
            &&& contents.subrange(0, n0) == T0::contents(output.0)
            &&& contents.subrange(n0, n1) == T1::contents(output.1)
            &&& contents.subrange(n1, n2) == T2::contents(output.2)
            &&& contents.subrange(n2, n3) == T3::contents(output.3)
            &&& contents.subrange(n3, n4) == T4::contents(output.4)
        }),
{
    let wanted = <(T0, T1, T2, T3, T4) as TakeBundle>::wanted();
    let w0 = T0::wanted().len() as int;
    let w1 = w0 + T1::wanted().len() as int;
    let w2 = w1 + T2::wanted().len() as int;
    let w3 = w2 + T3::wanted().len() as int;
    let w4 = w3 + T4::wanted().len() as int;
    assert(wanted.subrange(0, w0) =~= T0::wanted());
    assert(wanted.subrange(w0, w1) =~= T1::wanted());
    assert(wanted.subrange(w1, w2) =~= T2::wanted());
    assert(wanted.subrange(w2, w3) =~= T3::wanted());
    assert(wanted.subrange(w3, w4) =~= T4::wanted());
    let contents = <(T0, T1, T2, T3, T4) as TakeBundle>::contents(output);
    let n0 = T0::contents(output.0).len() as int;
    let n1 = n0 + T1::contents(output.1).len() as int;
    let n2 = n1 + T2::contents(output.2).len() as int;
    let n3 = n2 + T3::contents(output.3).len() as int;
    let n4 = n3 + T4::contents(output.4).len() as int;
    assert(contents.subrange(0, n0) =~= T0::contents(output.0));
    assert(contents.subrange(n0, n1) =~= T1::contents(output.1));
    assert(contents.subrange(n1, n2) =~= T2::contents(output.2));
    assert(contents.subrange(n2, n3) =~= T3::contents(output.3));
    assert(contents.subrange(n3, n4) =~= T4::contents(output.4));
}

/// Taking six bundles takes what each of them does, one behind the other, and hands
/// out what each of them took.
pub proof fn lemma_taking_six<
    T0: TakeBundle,
    T1: TakeBundle<Universe = T0::Universe>,
    T2: TakeBundle<Universe = T0::Universe>,
    T3: TakeBundle<Universe = T0::Universe>,
    T4: TakeBundle<Universe = T0::Universe>,
    T5: TakeBundle<Universe = T0::Universe>,
>(output: (T0::Output, T1::Output, T2::Output, T3::Output, T4::Output, T5::Output))
    ensures
        ({
            let wanted = <(T0, T1, T2, T3, T4, T5) as TakeBundle>::wanted();
            let w0 = T0::wanted().len() as int;
            let w1 = w0 + T1::wanted().len() as int;
            let w2 = w1 + T2::wanted().len() as int;
            let w3 = w2 + T3::wanted().len() as int;
            let w4 = w3 + T4::wanted().len() as int;
            let w5 = w4 + T5::wanted().len() as int;
            &&& wanted.len() == w5
            &&& wanted.subrange(0, w0) == T0::wanted()
            &&& wanted.subrange(w0, w1) == T1::wanted()
            &&& wanted.subrange(w1, w2) == T2::wanted()
            &&& wanted.subrange(w2, w3) == T3::wanted()
            &&& wanted.subrange(w3, w4) == T4::wanted()
            &&& wanted.subrange(w4, w5) == T5::wanted()
        }),
        ({
            let contents = <(T0, T1, T2, T3, T4, T5) as TakeBundle>::contents(output);
            let n0 = T0::contents(output.0).len() as int;
            let n1 = n0 + T1::contents(output.1).len() as int;
            let n2 = n1 + T2::contents(output.2).len() as int;
            let n3 = n2 + T3::contents(output.3).len() as int;
            let n4 = n3 + T4::contents(output.4).len() as int;
            let n5 = n4 + T5::contents(output.5).len() as int;
            &&& contents.len() == n5
            &&& contents.subrange(0, n0) == T0::contents(output.0)
            &&& contents.subrange(n0, n1) == T1::contents(output.1)
            &&& contents.subrange(n1, n2) == T2::contents(output.2)
            &&& contents.subrange(n2, n3) == T3::contents(output.3)
            &&& contents.subrange(n3, n4) == T4::contents(output.4)
            &&& contents.subrange(n4, n5) == T5::contents(output.5)
        }),
{
    let wanted = <(T0, T1, T2, T3, T4, T5) as TakeBundle>::wanted();
    let w0 = T0::wanted().len() as int;
    let w1 = w0 + T1::wanted().len() as int;
    let w2 = w1 + T2::wanted().len() as int;
    let w3 = w2 + T3::wanted().len() as int;
    let w4 = w3 + T4::wanted().len() as int;
    let w5 = w4 + T5::wanted().len() as int;
    assert(wanted.subrange(0, w0) =~= T0::wanted());
    assert(wanted.subrange(w0, w1) =~= T1::wanted());
    assert(wanted.subrange(w1, w2) =~= T2::wanted());
    assert(wanted.subrange(w2, w3) =~= T3::wanted());
    assert(wanted.subrange(w3, w4) =~= T4::wanted());
    assert(wanted.subrange(w4, w5) =~= T5::wanted());
    let contents = <(T0, T1, T2, T3, T4, T5) as TakeBundle>::contents(output);
    let n0 = T0::contents(output.0).len() as int;
    let n1 = n0 + T1::contents(output.1).len() as int;
    let n2 = n1 + T2::contents(output.2).len() as int;
    let n3 = n2 + T3::contents(output.3).len() as int;
    let n4 = n3 + T4::contents(output.4).len() as int;
    let n5 = n4 + T5::contents(output.5).len() as int;
    assert(contents.subrange(0, n0) =~= T0::contents(output.0));
    assert(contents.subrange(n0, n1) =~= T1::contents(output.1));
    assert(contents.subrange(n1, n2) =~= T2::contents(output.2));
    assert(contents.subrange(n2, n3) =~= T3::contents(output.3));
    assert(contents.subrange(n3, n4) =~= T4::contents(output.4));
    assert(contents.subrange(n4, n5) =~= T5::contents(output.5));
}

/// Taking seven bundles takes what each of them does, one behind the other, and hands
/// out what each of them took.
pub proof fn lemma_taking_seven<
    T0: TakeBundle,
    T1: TakeBundle<Universe = T0::Universe>,
    T2: TakeBundle<Universe = T0::Universe>,
    T3: TakeBundle<Universe = T0::Universe>,
    T4: TakeBundle<Universe = T0::Universe>,
    T5: TakeBundle<Universe = T0::Universe>,
    T6: TakeBundle<Universe = T0::Universe>,
>(output: (T0::Output, T1::Output, T2::Output, T3::Output, T4::Output, T5::Output, T6::Output))
    ensures
        ({
            let wanted = <(T0, T1, T2, T3, T4, T5, T6) as TakeBundle>::wanted();
            let w0 = T0::wanted().len() as int;
            let w1 = w0 + T1::wanted().len() as int;
            let w2 = w1 + T2::wanted().len() as int;
            let w3 = w2 + T3::wanted().len() as int;
            let w4 = w3 + T4::wanted().len() as int;
            let w5 = w4 + T5::wanted().len() as int;
            let w6 = w5 + T6::wanted().len() as int;
            &&& wanted.len() == w6
            &&& wanted.subrange(0, w0) == T0::wanted()
            &&& wanted.subrange(w0, w1) == T1::wanted()
            &&& wanted.subrange(w1, w2) == T2::wanted()
            &&& wanted.subrange(w2, w3) == T3::wanted()
            &&& wanted.subrange(w3, w4) == T4::wanted()
            &&& wanted.subrange(w4, w5) == T5::wanted()
            &&& wanted.subrange(w5, w6) == T6::wanted()
        }),
        ({
            let contents = <(T0, T1, T2, T3, T4, T5, T6) as TakeBundle>::contents(output);
            let n0 = T0::contents(output.0).len() as int;
            let n1 = n0 + T1::contents(output.1).len() as int;
            let n2 = n1 + T2::contents(output.2).len() as int;
            let n3 = n2 + T3::contents(output.3).len() as int;
            let n4 = n3 + T4::contents(output.4).len() as int;
            let n5 = n4 + T5::contents(output.5).len() as int;
            let n6 = n5 + T6::contents(output.6).len() as int;
            &&& contents.len() == n6
            &&& contents.subrange(0, n0) == T0::contents(output.0)
            &&& contents.subrange(n0, n1) == T1::contents(output.1)
            &&& contents.subrange(n1, n2) == T2::contents(output.2)
            &&& contents.subrange(n2, n3) == T3::contents(output.3)
            &&& contents.subrange(n3, n4) == T4::contents(output.4)
            &&& contents.subrange(n4, n5) == T5::contents(output.5)
            &&& contents.subrange(n5, n6) == T6::contents(output.6)
        }),
{
    let wanted = <(T0, T1, T2, T3, T4, T5, T6) as TakeBundle>::wanted();
    let w0 = T0::wanted().len() as int;
    let w1 = w0 + T1::wanted().len() as int;
    let w2 = w1 + T2::wanted().len() as int;
    let w3 = w2 + T3::wanted().len() as int;
    let w4 = w3 + T4::wanted().len() as int;
    let w5 = w4 + T5::wanted().len() as int;
    let w6 = w5 + T6::wanted().len() as int;
    assert(wanted.subrange(0, w0) =~= T0::wanted());
    assert(wanted.subrange(w0, w1) =~= T1::wanted());
    assert(wanted.subrange(w1, w2) =~= T2::wanted());
    assert(wanted.subrange(w2, w3) =~= T3::wanted());
    assert(wanted.subrange(w3, w4) =~= T4::wanted());
    assert(wanted.subrange(w4, w5) =~= T5::wanted());
    assert(wanted.subrange(w5, w6) =~= T6::wanted());
    let contents = <(T0, T1, T2, T3, T4, T5, T6) as TakeBundle>::contents(output);
    let n0 = T0::contents(output.0).len() as int;
    let n1 = n0 + T1::contents(output.1).len() as int;
    let n2 = n1 + T2::contents(output.2).len() as int;
    let n3 = n2 + T3::contents(output.3).len() as int;
    let n4 = n3 + T4::contents(output.4).len() as int;
    let n5 = n4 + T5::contents(output.5).len() as int;
    let n6 = n5 + T6::contents(output.6).len() as int;
    assert(contents.subrange(0, n0) =~= T0::contents(output.0));
    assert(contents.subrange(n0, n1) =~= T1::contents(output.1));
    assert(contents.subrange(n1, n2) =~= T2::contents(output.2));
    assert(contents.subrange(n2, n3) =~= T3::contents(output.3));
    assert(contents.subrange(n3, n4) =~= T4::contents(output.4));
    assert(contents.subrange(n4, n5) =~= T5::contents(output.5));
    assert(contents.subrange(n5, n6) =~= T6::contents(output.6));
}

/// Taking eight bundles takes what each of them does, one behind the other, and hands
/// out what each of them took.
pub proof fn lemma_taking_eight<
    T0: TakeBundle,
    T1: TakeBundle<Universe = T0::Universe>,
    T2: TakeBundle<Universe = T0::Universe>,
    T3: TakeBundle<Universe = T0::Universe>,
    T4: TakeBundle<Universe = T0::Universe>,
    T5: TakeBundle<Universe = T0::Universe>,
    T6: TakeBundle<Universe = T0::Universe>,
    T7: TakeBundle<Universe = T0::Universe>,
>(output: (T0::Output, T1::Output, T2::Output, T3::Output, T4::Output, T5::Output, T6::Output, T7::Output))
    ensures
        ({
            let wanted = <(T0, T1, T2, T3, T4, T5, T6, T7) as TakeBundle>::wanted();
            let w0 = T0::wanted().len() as int;
            let w1 = w0 + T1::wanted().len() as int;
            let w2 = w1 + T2::wanted().len() as int;
            let w3 = w2 + T3::wanted().len() as int;
            let w4 = w3 + T4::wanted().len() as int;
            let w5 = w4 + T5::wanted().len() as int;
            let w6 = w5 + T6::wanted().len() as int;
            let w7 = w6 + T7::wanted().len() as int;
            &&& wanted.len() == w7
            &&& wanted.subrange(0, w0) == T0::wanted()
            &&& wanted.subrange(w0, w1) == T1::wanted()
            &&& wanted.subrange(w1, w2) == T2::wanted()
            &&& wanted.subrange(w2, w3) == T3::wanted()
            &&& wanted.subrange(w3, w4) == T4::wanted()
            &&& wanted.subrange(w4, w5) == T5::wanted()
            &&& wanted.subrange(w5, w6) == T6::wanted()
            &&& wanted.subrange(w6, w7) == T7::wanted()
        }),
        ({
            let contents = <(T0, T1, T2, T3, T4, T5, T6, T7) as TakeBundle>::contents(output);
            let n0 = T0::contents(output.0).len() as int;
            let n1 = n0 + T1::contents(output.1).len() as int;
            let n2 = n1 + T2::contents(output.2).len() as int;
            let n3 = n2 + T3::contents(output.3).len() as int;
            let n4 = n3 + T4::contents(output.4).len() as int;
            let n5 = n4 + T5::contents(output.5).len() as int;
            let n6 = n5 + T6::contents(output.6).len() as int;
            let n7 = n6 + T7::contents(output.7).len() as int;
            &&& contents.len() == n7
            &&& contents.subrange(0, n0) == T0::contents(output.0)
            &&& contents.subrange(n0, n1) == T1::contents(output.1)
            &&& contents.subrange(n1, n2) == T2::contents(output.2)
            &&& contents.subrange(n2, n3) == T3::contents(output.3)
            &&& contents.subrange(n3, n4) == T4::contents(output.4)
            &&& contents.subrange(n4, n5) == T5::contents(output.5)
            &&& contents.subrange(n5, n6) == T6::contents(output.6)
            &&& contents.subrange(n6, n7) == T7::contents(output.7)
        }),
{
    let wanted = <(T0, T1, T2, T3, T4, T5, T6, T7) as TakeBundle>::wanted();
    let w0 = T0::wanted().len() as int;
    let w1 = w0 + T1::wanted().len() as int;
    let w2 = w1 + T2::wanted().len() as int;
    let w3 = w2 + T3::wanted().len() as int;
    let w4 = w3 + T4::wanted().len() as int;
    let w5 = w4 + T5::wanted().len() as int;
    let w6 = w5 + T6::wanted().len() as int;
    let w7 = w6 + T7::wanted().len() as int;
    assert(wanted.subrange(0, w0) =~= T0::wanted());
    assert(wanted.subrange(w0, w1) =~= T1::wanted());
    assert(wanted.subrange(w1, w2) =~= T2::wanted());
    assert(wanted.subrange(w2, w3) =~= T3::wanted());
    assert(wanted.subrange(w3, w4) =~= T4::wanted());
    assert(wanted.subrange(w4, w5) =~= T5::wanted());
    assert(wanted.subrange(w5, w6) =~= T6::wanted());
    assert(wanted.subrange(w6, w7) =~= T7::wanted());
    let contents = <(T0, T1, T2, T3, T4, T5, T6, T7) as TakeBundle>::contents(output);
    let n0 = T0::contents(output.0).len() as int;
    let n1 = n0 + T1::contents(output.1).len() as int;
    let n2 = n1 + T2::contents(output.2).len() as int;
    let n3 = n2 + T3::contents(output.3).len() as int;
    let n4 = n3 + T4::contents(output.4).len() as int;
    let n5 = n4 + T5::contents(output.5).len() as int;
    let n6 = n5 + T6::contents(output.6).len() as int;
    let n7 = n6 + T7::contents(output.7).len() as int;
    assert(contents.subrange(0, n0) =~= T0::contents(output.0));
    assert(contents.subrange(n0, n1) =~= T1::contents(output.1));
    assert(contents.subrange(n1, n2) =~= T2::contents(output.2));
    assert(contents.subrange(n2, n3) =~= T3::contents(output.3));
    assert(contents.subrange(n3, n4) =~= T4::contents(output.4));
    assert(contents.subrange(n4, n5) =~= T5::contents(output.5));
    assert(contents.subrange(n5, n6) =~= T6::contents(output.6));
    assert(contents.subrange(n6, n7) =~= T7::contents(output.7));
}

/// Taking a component type wants that one, and hands its value out.
pub proof fn lemma_taking_a_component<T: ComponentType>(
    output: std::sync::Arc<T::Universe>,
) where T::Universe: RelationshipTarget
    ensures
        <T as TakeBundle>::wanted().len() == 1,
        <T as TakeBundle>::wanted()[0].0 == T::key(),
        <T as TakeBundle>::wanted()[0].1,
        <T as TakeBundle>::contents(output).len() == 1,
        <T as TakeBundle>::contents(output)[0] == Some(output.model()),
{
}

/// Taking an optional component type wants that one, but does without it.
pub proof fn lemma_taking_an_optional_component<T: ComponentType>(
    output: Option<std::sync::Arc<T::Universe>>,
) where T::Universe: RelationshipTarget
    ensures
        <Option<T> as TakeBundle>::wanted().len() == 1,
        <Option<T> as TakeBundle>::wanted()[0].0 == T::key(),
        !<Option<T> as TakeBundle>::wanted()[0].1,
        <Option<T> as TakeBundle>::contents(output).len() == 1,
        match output {
            Some(value) => <Option<T> as TakeBundle>::contents(output)[0] == Some(value.model()),
            None => <Option<T> as TakeBundle>::contents(output)[0] is None,
        },
{
}

/// Whether a declaration covers a component type: a wildcard covers all.
pub open spec fn covered_by(declared: Option<Seq<ComponentId>>, kind: ComponentId) -> bool {
    match declared {
        Some(kinds) => kinds.contains(kind),
        None => true,
    }
}

/// Two declarations together cover what either covers; a wildcard makes the whole a
/// wildcard.
pub proof fn lemma_declarations_add_up(
    a: Option<Seq<ComponentId>>,
    b: Option<Seq<ComponentId>>,
    kind: ComponentId,
)
    ensures
        crate::declare::joined(a, b) is None <==> (a is None || b is None),
        covered_by(crate::declare::joined(a, b), kind) <==> (covered_by(a, kind) || covered_by(
            b,
            kind,
        )),
{
    if a is Some && b is Some {
        lemma_joined(a->0, b->0, kind);
    }
}

/// A declaration of one part covers what it covers, and is a wildcard if it is.
pub proof fn lemma_declaration_of_one<
    T0: DeclarationList,
>(kind: ComponentId)
    ensures
        covered_by(<(T0,) as DeclarationList>::declaration(), kind) <==> (covered_by(T0::declaration(), kind)),
        <(T0,) as DeclarationList>::declaration() is None <==> (T0::declaration() is None),
{

}

/// A declaration of two parts covers what any of them covers, and is a wildcard if one of them is.
pub proof fn lemma_declaration_of_two<
    T0: DeclarationList,
    T1: DeclarationList,
>(kind: ComponentId)
    ensures
        covered_by(<(T0, T1) as DeclarationList>::declaration(), kind) <==> (covered_by(T0::declaration(), kind) || covered_by(T1::declaration(), kind)),
        <(T0, T1) as DeclarationList>::declaration() is None <==> (T0::declaration() is None || T1::declaration() is None),
{
    lemma_declarations_add_up(T0::declaration(), T1::declaration(), kind);
    let d1 = crate::declare::joined(T0::declaration(), T1::declaration());
}

/// A declaration of three parts covers what any of them covers, and is a wildcard if one of them is.
pub proof fn lemma_declaration_of_three<
    T0: DeclarationList,
    T1: DeclarationList,
    T2: DeclarationList,
>(kind: ComponentId)
    ensures
        covered_by(<(T0, T1, T2) as DeclarationList>::declaration(), kind) <==> (covered_by(T0::declaration(), kind) || covered_by(T1::declaration(), kind) || covered_by(T2::declaration(), kind)),
        <(T0, T1, T2) as DeclarationList>::declaration() is None <==> (T0::declaration() is None || T1::declaration() is None || T2::declaration() is None),
{
    lemma_declarations_add_up(T0::declaration(), T1::declaration(), kind);
    let d1 = crate::declare::joined(T0::declaration(), T1::declaration());
    lemma_declarations_add_up(d1, T2::declaration(), kind);
    let d2 = crate::declare::joined(d1, T2::declaration());
}

/// A declaration of four parts covers what any of them covers, and is a wildcard if one of them is.
pub proof fn lemma_declaration_of_four<
    T0: DeclarationList,
    T1: DeclarationList,
    T2: DeclarationList,
    T3: DeclarationList,
>(kind: ComponentId)
    ensures
        covered_by(<(T0, T1, T2, T3) as DeclarationList>::declaration(), kind) <==> (covered_by(T0::declaration(), kind) || covered_by(T1::declaration(), kind) || covered_by(T2::declaration(), kind) || covered_by(T3::declaration(), kind)),
        <(T0, T1, T2, T3) as DeclarationList>::declaration() is None <==> (T0::declaration() is None || T1::declaration() is None || T2::declaration() is None || T3::declaration() is None),
{
    lemma_declarations_add_up(T0::declaration(), T1::declaration(), kind);
    let d1 = crate::declare::joined(T0::declaration(), T1::declaration());
    lemma_declarations_add_up(d1, T2::declaration(), kind);
    let d2 = crate::declare::joined(d1, T2::declaration());
    lemma_declarations_add_up(d2, T3::declaration(), kind);
    let d3 = crate::declare::joined(d2, T3::declaration());
}

/// A declaration of five parts covers what any of them covers, and is a wildcard if one of them is.
pub proof fn lemma_declaration_of_five<
    T0: DeclarationList,
    T1: DeclarationList,
    T2: DeclarationList,
    T3: DeclarationList,
    T4: DeclarationList,
>(kind: ComponentId)
    ensures
        covered_by(<(T0, T1, T2, T3, T4) as DeclarationList>::declaration(), kind) <==> (covered_by(T0::declaration(), kind) || covered_by(T1::declaration(), kind) || covered_by(T2::declaration(), kind) || covered_by(T3::declaration(), kind) || covered_by(T4::declaration(), kind)),
        <(T0, T1, T2, T3, T4) as DeclarationList>::declaration() is None <==> (T0::declaration() is None || T1::declaration() is None || T2::declaration() is None || T3::declaration() is None || T4::declaration() is None),
{
    lemma_declarations_add_up(T0::declaration(), T1::declaration(), kind);
    let d1 = crate::declare::joined(T0::declaration(), T1::declaration());
    lemma_declarations_add_up(d1, T2::declaration(), kind);
    let d2 = crate::declare::joined(d1, T2::declaration());
    lemma_declarations_add_up(d2, T3::declaration(), kind);
    let d3 = crate::declare::joined(d2, T3::declaration());
    lemma_declarations_add_up(d3, T4::declaration(), kind);
    let d4 = crate::declare::joined(d3, T4::declaration());
}

/// A declaration of six parts covers what any of them covers, and is a wildcard if one of them is.
pub proof fn lemma_declaration_of_six<
    T0: DeclarationList,
    T1: DeclarationList,
    T2: DeclarationList,
    T3: DeclarationList,
    T4: DeclarationList,
    T5: DeclarationList,
>(kind: ComponentId)
    ensures
        covered_by(<(T0, T1, T2, T3, T4, T5) as DeclarationList>::declaration(), kind) <==> (covered_by(T0::declaration(), kind) || covered_by(T1::declaration(), kind) || covered_by(T2::declaration(), kind) || covered_by(T3::declaration(), kind) || covered_by(T4::declaration(), kind) || covered_by(T5::declaration(), kind)),
        <(T0, T1, T2, T3, T4, T5) as DeclarationList>::declaration() is None <==> (T0::declaration() is None || T1::declaration() is None || T2::declaration() is None || T3::declaration() is None || T4::declaration() is None || T5::declaration() is None),
{
    lemma_declarations_add_up(T0::declaration(), T1::declaration(), kind);
    let d1 = crate::declare::joined(T0::declaration(), T1::declaration());
    lemma_declarations_add_up(d1, T2::declaration(), kind);
    let d2 = crate::declare::joined(d1, T2::declaration());
    lemma_declarations_add_up(d2, T3::declaration(), kind);
    let d3 = crate::declare::joined(d2, T3::declaration());
    lemma_declarations_add_up(d3, T4::declaration(), kind);
    let d4 = crate::declare::joined(d3, T4::declaration());
    lemma_declarations_add_up(d4, T5::declaration(), kind);
    let d5 = crate::declare::joined(d4, T5::declaration());
}

/// A declaration of seven parts covers what any of them covers, and is a wildcard if one of them is.
pub proof fn lemma_declaration_of_seven<
    T0: DeclarationList,
    T1: DeclarationList,
    T2: DeclarationList,
    T3: DeclarationList,
    T4: DeclarationList,
    T5: DeclarationList,
    T6: DeclarationList,
>(kind: ComponentId)
    ensures
        covered_by(<(T0, T1, T2, T3, T4, T5, T6) as DeclarationList>::declaration(), kind) <==> (covered_by(T0::declaration(), kind) || covered_by(T1::declaration(), kind) || covered_by(T2::declaration(), kind) || covered_by(T3::declaration(), kind) || covered_by(T4::declaration(), kind) || covered_by(T5::declaration(), kind) || covered_by(T6::declaration(), kind)),
        <(T0, T1, T2, T3, T4, T5, T6) as DeclarationList>::declaration() is None <==> (T0::declaration() is None || T1::declaration() is None || T2::declaration() is None || T3::declaration() is None || T4::declaration() is None || T5::declaration() is None || T6::declaration() is None),
{
    lemma_declarations_add_up(T0::declaration(), T1::declaration(), kind);
    let d1 = crate::declare::joined(T0::declaration(), T1::declaration());
    lemma_declarations_add_up(d1, T2::declaration(), kind);
    let d2 = crate::declare::joined(d1, T2::declaration());
    lemma_declarations_add_up(d2, T3::declaration(), kind);
    let d3 = crate::declare::joined(d2, T3::declaration());
    lemma_declarations_add_up(d3, T4::declaration(), kind);
    let d4 = crate::declare::joined(d3, T4::declaration());
    lemma_declarations_add_up(d4, T5::declaration(), kind);
    let d5 = crate::declare::joined(d4, T5::declaration());
    lemma_declarations_add_up(d5, T6::declaration(), kind);
    let d6 = crate::declare::joined(d5, T6::declaration());
}

/// A declaration of eight parts covers what any of them covers, and is a wildcard if one of them is.
pub proof fn lemma_declaration_of_eight<
    T0: DeclarationList,
    T1: DeclarationList,
    T2: DeclarationList,
    T3: DeclarationList,
    T4: DeclarationList,
    T5: DeclarationList,
    T6: DeclarationList,
    T7: DeclarationList,
>(kind: ComponentId)
    ensures
        covered_by(<(T0, T1, T2, T3, T4, T5, T6, T7) as DeclarationList>::declaration(), kind) <==> (covered_by(T0::declaration(), kind) || covered_by(T1::declaration(), kind) || covered_by(T2::declaration(), kind) || covered_by(T3::declaration(), kind) || covered_by(T4::declaration(), kind) || covered_by(T5::declaration(), kind) || covered_by(T6::declaration(), kind) || covered_by(T7::declaration(), kind)),
        <(T0, T1, T2, T3, T4, T5, T6, T7) as DeclarationList>::declaration() is None <==> (T0::declaration() is None || T1::declaration() is None || T2::declaration() is None || T3::declaration() is None || T4::declaration() is None || T5::declaration() is None || T6::declaration() is None || T7::declaration() is None),
{
    lemma_declarations_add_up(T0::declaration(), T1::declaration(), kind);
    let d1 = crate::declare::joined(T0::declaration(), T1::declaration());
    lemma_declarations_add_up(d1, T2::declaration(), kind);
    let d2 = crate::declare::joined(d1, T2::declaration());
    lemma_declarations_add_up(d2, T3::declaration(), kind);
    let d3 = crate::declare::joined(d2, T3::declaration());
    lemma_declarations_add_up(d3, T4::declaration(), kind);
    let d4 = crate::declare::joined(d3, T4::declaration());
    lemma_declarations_add_up(d4, T5::declaration(), kind);
    let d5 = crate::declare::joined(d4, T5::declaration());
    lemma_declarations_add_up(d5, T6::declaration(), kind);
    let d6 = crate::declare::joined(d5, T6::declaration());
    lemma_declarations_add_up(d6, T7::declaration(), kind);
    let d7 = crate::declare::joined(d6, T7::declaration());
}

/// A component type declares itself, also as an optional part; nothing declares
/// nothing, and the wildcard everything.
pub proof fn lemma_declaration_of_a_component<T: ComponentType>(kind: ComponentId)
    ensures
        covered_by(<T as DeclarationList>::declaration(), kind) <==> kind == T::key(),
        covered_by(<Option<T> as DeclarationList>::declaration(), kind) <==> kind == T::key(),
        !covered_by(<() as DeclarationList>::declaration(), kind),
        covered_by(<crate::declare::Anything as DeclarationList>::declaration(), kind),
{
    let own = <T as DeclarationList>::declaration()->0;
    assert(own[0] == T::key());
}

/// A shape of one part has each of them, in order.
pub proof fn lemma_shape_of_one<
    P0: ShapePart,
>()
    ensures
        <(P0,) as FacetKind>::described().len() == 1,
        <(P0,) as FacetKind>::described()[0] == P0::described(),
{
}

/// A shape of two parts has each of them, in order.
pub proof fn lemma_shape_of_two<
    P0: ShapePart,
    P1: ShapePart,
>()
    ensures
        <(P0, P1) as FacetKind>::described().len() == 2,
        <(P0, P1) as FacetKind>::described()[0] == P0::described(),
        <(P0, P1) as FacetKind>::described()[1] == P1::described(),
{
}

/// A shape of three parts has each of them, in order.
pub proof fn lemma_shape_of_three<
    P0: ShapePart,
    P1: ShapePart,
    P2: ShapePart,
>()
    ensures
        <(P0, P1, P2) as FacetKind>::described().len() == 3,
        <(P0, P1, P2) as FacetKind>::described()[0] == P0::described(),
        <(P0, P1, P2) as FacetKind>::described()[1] == P1::described(),
        <(P0, P1, P2) as FacetKind>::described()[2] == P2::described(),
{
}

/// A shape of four parts has each of them, in order.
pub proof fn lemma_shape_of_four<
    P0: ShapePart,
    P1: ShapePart,
    P2: ShapePart,
    P3: ShapePart,
>()
    ensures
        <(P0, P1, P2, P3) as FacetKind>::described().len() == 4,
        <(P0, P1, P2, P3) as FacetKind>::described()[0] == P0::described(),
        <(P0, P1, P2, P3) as FacetKind>::described()[1] == P1::described(),
        <(P0, P1, P2, P3) as FacetKind>::described()[2] == P2::described(),
        <(P0, P1, P2, P3) as FacetKind>::described()[3] == P3::described(),
{
}

/// A shape of five parts has each of them, in order.
pub proof fn lemma_shape_of_five<
    P0: ShapePart,
    P1: ShapePart,
    P2: ShapePart,
    P3: ShapePart,
    P4: ShapePart,
>()
    ensures
        <(P0, P1, P2, P3, P4) as FacetKind>::described().len() == 5,
        <(P0, P1, P2, P3, P4) as FacetKind>::described()[0] == P0::described(),
        <(P0, P1, P2, P3, P4) as FacetKind>::described()[1] == P1::described(),
        <(P0, P1, P2, P3, P4) as FacetKind>::described()[2] == P2::described(),
        <(P0, P1, P2, P3, P4) as FacetKind>::described()[3] == P3::described(),
        <(P0, P1, P2, P3, P4) as FacetKind>::described()[4] == P4::described(),
{
}

/// A shape of six parts has each of them, in order.
pub proof fn lemma_shape_of_six<
    P0: ShapePart,
    P1: ShapePart,
    P2: ShapePart,
    P3: ShapePart,
    P4: ShapePart,
    P5: ShapePart,
>()
    ensures
        <(P0, P1, P2, P3, P4, P5) as FacetKind>::described().len() == 6,
        <(P0, P1, P2, P3, P4, P5) as FacetKind>::described()[0] == P0::described(),
        <(P0, P1, P2, P3, P4, P5) as FacetKind>::described()[1] == P1::described(),
        <(P0, P1, P2, P3, P4, P5) as FacetKind>::described()[2] == P2::described(),
        <(P0, P1, P2, P3, P4, P5) as FacetKind>::described()[3] == P3::described(),
        <(P0, P1, P2, P3, P4, P5) as FacetKind>::described()[4] == P4::described(),
        <(P0, P1, P2, P3, P4, P5) as FacetKind>::described()[5] == P5::described(),
{
}

/// A shape of seven parts has each of them, in order.
pub proof fn lemma_shape_of_seven<
    P0: ShapePart,
    P1: ShapePart,
    P2: ShapePart,
    P3: ShapePart,
    P4: ShapePart,
    P5: ShapePart,
    P6: ShapePart,
>()
    ensures
        <(P0, P1, P2, P3, P4, P5, P6) as FacetKind>::described().len() == 7,
        <(P0, P1, P2, P3, P4, P5, P6) as FacetKind>::described()[0] == P0::described(),
        <(P0, P1, P2, P3, P4, P5, P6) as FacetKind>::described()[1] == P1::described(),
        <(P0, P1, P2, P3, P4, P5, P6) as FacetKind>::described()[2] == P2::described(),
        <(P0, P1, P2, P3, P4, P5, P6) as FacetKind>::described()[3] == P3::described(),
        <(P0, P1, P2, P3, P4, P5, P6) as FacetKind>::described()[4] == P4::described(),
        <(P0, P1, P2, P3, P4, P5, P6) as FacetKind>::described()[5] == P5::described(),
        <(P0, P1, P2, P3, P4, P5, P6) as FacetKind>::described()[6] == P6::described(),
{
}

/// A shape of eight parts has each of them, in order.
pub proof fn lemma_shape_of_eight<
    P0: ShapePart,
    P1: ShapePart,
    P2: ShapePart,
    P3: ShapePart,
    P4: ShapePart,
    P5: ShapePart,
    P6: ShapePart,
    P7: ShapePart,
>()
    ensures
        <(P0, P1, P2, P3, P4, P5, P6, P7) as FacetKind>::described().len() == 8,
        <(P0, P1, P2, P3, P4, P5, P6, P7) as FacetKind>::described()[0] == P0::described(),
        <(P0, P1, P2, P3, P4, P5, P6, P7) as FacetKind>::described()[1] == P1::described(),
        <(P0, P1, P2, P3, P4, P5, P6, P7) as FacetKind>::described()[2] == P2::described(),
        <(P0, P1, P2, P3, P4, P5, P6, P7) as FacetKind>::described()[3] == P3::described(),
        <(P0, P1, P2, P3, P4, P5, P6, P7) as FacetKind>::described()[4] == P4::described(),
        <(P0, P1, P2, P3, P4, P5, P6, P7) as FacetKind>::described()[5] == P5::described(),
        <(P0, P1, P2, P3, P4, P5, P6, P7) as FacetKind>::described()[6] == P6::described(),
        <(P0, P1, P2, P3, P4, P5, P6, P7) as FacetKind>::described()[7] == P7::described(),
{
}

/// A part of a shape is the component type that it names, required unless it is
/// optional.
pub proof fn lemma_shape_parts<T: ComponentType>()
    ensures
        <T as ShapePart>::described().type_id == T::key(),
        <T as ShapePart>::described().is_tracked == T::Universe::tracks(T::key()),
        !<T as ShapePart>::described().optional,
        <Option<T> as ShapePart>::described().type_id == T::key(),
        <Option<T> as ShapePart>::described().is_tracked == T::Universe::tracks(T::key()),
        <Option<T> as ShapePart>::described().optional,
{
}

} // verus!
