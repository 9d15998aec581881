//! Taking components out of a bound entity.

use super::cleanup::cleaned;
use super::{State, StateModel};
use crate::component::{Component, ComponentId, ComponentType, RelationshipTarget};
use crate::entity::Entity;
use crate::model::WorldModel;
use crate::text::{decimal, decimal_text};
use crate::world::World;
use std::sync::Arc;
use vstd::prelude::*;
use vstd::string::StringExecFns;

verus! {

/// Error of a take when a required component is absent.
#[derive(Debug, Clone, Copy)]
pub struct TakeError {
    entity: Entity,
    component: &'static str,
}

impl TakeError {
    /// The entity that was missing a required component.
    pub closed spec fn subject(self) -> Entity {
        self.entity
    }

    /// The name of the missing component.
    pub closed spec fn lacking(self) -> Seq<char> {
        self.component@
    }

    /// The entity that was missing a required component.
    pub fn entity(&self) -> (entity: Entity)
        ensures
            entity == self.subject(),
    {
        self.entity
    }

    /// The name of the missing component.
    pub fn component(&self) -> (component: &'static str)
        ensures
            component@ == self.lacking(),
    {
        self.component
    }

    /// The error in words.
    pub fn message(&self) -> (text: String)
        ensures
            text@ == "entity "@ + decimal(self.subject().id() as nat)
                + " is missing required component "@ + self.lacking(),
    {
        let mut text = String::from_str("entity ");
        let id = decimal_text(self.entity.raw());
        text.append(id.as_str());
        text.append(" is missing required component ");
        text.append(self.component);
        text
    }
}

/// Takes components off `entity` one after the other. Each entry of `wanted` is a
/// component type and whether it is required; the first required component that
/// is absent ends it, and is reported.
pub open spec fn take_all<C: RelationshipTarget>(
    world: WorldModel<C>,
    wanted: Seq<(ComponentId, bool)>,
    entity: Entity,
) -> (WorldModel<C>, Result<Seq<Option<C::Model>>, ComponentId>)
    decreases wanted.len(),
{
    if wanted.len() == 0 {
        (world, Ok(Seq::empty()))
    } else {
        let done = take_all(world, wanted.drop_last(), entity);
        let kind = wanted.last().0;
        match done.1 {
            Err(_) => done,
            Ok(values) => match done.0.entry(kind, entity) {
                Some(entry) => (
                    done.0.remove_component(kind, entity),
                    Ok(values.push(Some(entry.value))),
                ),
                None => (
                    done.0.remove_component(kind, entity),
                    if wanted.last().1 {
                        Err(kind)
                    } else {
                        Ok(values.push(None))
                    },
                ),
            },
        }
    }
}

/// Taking two lists is taking the first, then the second.
pub proof fn lemma_take_in_turn<C: RelationshipTarget>(
    world: WorldModel<C>,
    first: Seq<(ComponentId, bool)>,
    second: Seq<(ComponentId, bool)>,
    entity: Entity,
)
    ensures
        ({
            let one = take_all(world, first, entity);
            let both = take_all(world, first + second, entity);
            match one.1 {
                Err(_) => both == one,
                Ok(values) => {
                    let two = take_all(one.0, second, entity);
                    both == (
                        two.0,
                        match two.1 {
                            Err(kind) => Err(kind),
                            Ok(more) => Ok(values + more),
                        },
                    )
                },
            }
        }),
    decreases second.len(),
{
    let one = take_all(world, first, entity);
    if second.len() == 0 {
        assert(first + second =~= first);
        if let Ok(values) = one.1 {
            assert(values + Seq::<Option<C::Model>>::empty() =~= values);
        }
    } else {
        let fewer = second.drop_last();
        lemma_take_in_turn(world, first, fewer, entity);
        assert((first + second).drop_last() =~= first + fewer);
        assert((first + second).last() == second.last());
        if let Ok(values) = one.1 {
            let two = take_all(one.0, fewer, entity);
            if let Ok(more) = two.1 {
                let kind = second.last().0;
                match two.0.entry(kind, entity) {
                    Some(entry) => {
                        assert((values + more).push(Some(entry.value)) =~= values + more.push(
                            Some(entry.value),
                        ));
                    },
                    None => {
                        assert((values + more).push(None) =~= values + more.push(None));
                    },
                }
            }
        }
    }
}

/// Components that can be taken from a bound entity. A component type is
/// required; `Option<T>` may be absent.
pub trait TakeBundle: Sized {
    /// The universe of the components.
    type Universe: RelationshipTarget;

    /// Value returned by a successful take.
    type Output;

    /// The component types to take, each with whether it is required.
    spec fn wanted() -> Seq<(ComponentId, bool)>;

    /// What a successful take returns, component by component.
    spec fn contents(output: Self::Output) -> Seq<Option<<Self::Universe as Component>::Model>>;

    /// Takes the components off `entity`.
    fn take(world: &mut World<Self::Universe>, entity: Entity) -> (taken: Result<
        Self::Output,
        TakeError,
    >)
        requires
            old(world).wf(),
        ensures
            final(world).wf(),
            ({
                let after = take_all(old(world)@, Self::wanted(), entity);
                &&& final(world)@ == after.0
                &&& match taken {
                    Ok(output) => after.1 == Ok::<
                        Seq<Option<<Self::Universe as Component>::Model>>,
                        ComponentId,
                    >(Self::contents(output)),
                    Err(error) => after.1 matches Err(kind) && error.subject() == entity
                        && error.lacking() == Self::Universe::label(kind),
                }
            }),
    ;
}

impl<T: ComponentType> TakeBundle for T where T::Universe: RelationshipTarget {
    type Universe = T::Universe;

    type Output = Arc<T::Universe>;

    open spec fn wanted() -> Seq<(ComponentId, bool)> {
        seq![(T::key(), true)]
    }

    open spec fn contents(output: Arc<T::Universe>) -> Seq<
        Option<<T::Universe as Component>::Model>,
    > {
        seq![Some(output.model())]
    }

    fn take(world: &mut World<T::Universe>, entity: Entity) -> (taken: Result<
        Arc<T::Universe>,
        TakeError,
    >) {
        let ghost before = world@;
        let kind = T::component_type();
        proof {
            let wanted = Self::wanted();
            assert(wanted.drop_last() =~= Seq::<(ComponentId, bool)>::empty());
            assert(take_all(before, wanted.drop_last(), entity) == (
                before,
                Ok::<Seq<Option<<T::Universe as Component>::Model>>, ComponentId>(Seq::empty()),
            ));
        }
        match world.remove_component(kind, entity) {
            Some(value) => {
                assert(Self::contents(value) =~= Seq::<
                    Option<<T::Universe as Component>::Model>,
                >::empty().push(Some(value.model())));
                Ok(value)
            },
            None => Err(TakeError { entity, component: T::Universe::component_name(kind) }),
        }
    }
}

impl<T: ComponentType> TakeBundle for Option<T> where T::Universe: RelationshipTarget {
    type Universe = T::Universe;

    type Output = Option<Arc<T::Universe>>;

    open spec fn wanted() -> Seq<(ComponentId, bool)> {
        seq![(T::key(), false)]
    }

    open spec fn contents(output: Option<Arc<T::Universe>>) -> Seq<
        Option<<T::Universe as Component>::Model>,
    > {
        seq![
            match output {
                Some(value) => Some(value.model()),
                None => None,
            },
        ]
    }

    fn take(world: &mut World<T::Universe>, entity: Entity) -> (taken: Result<
        Option<Arc<T::Universe>>,
        TakeError,
    >) {
        let ghost before = world@;
        let kind = T::component_type();
        proof {
            let wanted = Self::wanted();
            assert(wanted.drop_last() =~= Seq::<(ComponentId, bool)>::empty());
            assert(take_all(before, wanted.drop_last(), entity) == (
                before,
                Ok::<Seq<Option<<T::Universe as Component>::Model>>, ComponentId>(Seq::empty()),
            ));
        }
        let value = world.remove_component(kind, entity);
        proof {
            let empty = Seq::<Option<<T::Universe as Component>::Model>>::empty();
            if value is Some {
                assert(Self::contents(value) =~= empty.push(Some(value->0.model())));
            } else {
                assert(Self::contents(value) =~= empty.push(None));
            }
        }
        Ok(value)
    }
}

impl<T0: TakeBundle, T1: TakeBundle<Universe = T0::Universe>> TakeBundle for (T0, T1) {
    type Universe = T0::Universe;

    type Output = (T0::Output, T1::Output);

    open spec fn wanted() -> Seq<(ComponentId, bool)> {
        T0::wanted() + T1::wanted()
    }

    open spec fn contents(output: (T0::Output, T1::Output)) -> Seq<
        Option<<T0::Universe as Component>::Model>,
    > {
        T0::contents(output.0) + T1::contents(output.1)
    }

    fn take(world: &mut World<T0::Universe>, entity: Entity) -> (taken: Result<
        (T0::Output, T1::Output),
        TakeError,
    >) {
        let ghost before = world@;
        let v0 = match T0::take(world, entity) {
            Ok(value) => value,
            Err(error) => {
                proof {
                    lemma_take_in_turn(before, T0::wanted(), T1::wanted(), entity);
                }
                return Err(error);
            },
        };
        proof {
            lemma_take_in_turn(before, T0::wanted(), T1::wanted(), entity);
        }
        let v1 = match T1::take(world, entity) {
            Ok(value) => value,
            Err(error) => {
                return Err(error);
            },
        };
        Ok((v0, v1))
    }
}

impl<T0: TakeBundle, T1: TakeBundle<Universe = T0::Universe>, T2: TakeBundle<Universe = T0::Universe>> TakeBundle for (T0, T1, T2) {
    type Universe = T0::Universe;

    type Output = (T0::Output, T1::Output, T2::Output);

    open spec fn wanted() -> Seq<(ComponentId, bool)> {
        T0::wanted() + T1::wanted() + T2::wanted()
    }

    open spec fn contents(output: (T0::Output, T1::Output, T2::Output)) -> Seq<
        Option<<T0::Universe as Component>::Model>,
    > {
        T0::contents(output.0) + T1::contents(output.1) + T2::contents(output.2)
    }

    fn take(world: &mut World<T0::Universe>, entity: Entity) -> (taken: Result<
        (T0::Output, T1::Output, T2::Output),
        TakeError,
    >) {
        let ghost before = world@;
        let v0 = match T0::take(world, entity) {
            Ok(value) => value,
            Err(error) => {
                proof {
                    lemma_take_in_turn(before, T0::wanted(), T1::wanted(), entity);
                    lemma_take_in_turn(before, T0::wanted() + T1::wanted(), T2::wanted(), entity);
                }
                return Err(error);
            },
        };
        proof {
            lemma_take_in_turn(before, T0::wanted(), T1::wanted(), entity);
        }
        let v1 = match T1::take(world, entity) {
            Ok(value) => value,
            Err(error) => {
                proof {
                    lemma_take_in_turn(before, T0::wanted() + T1::wanted(), T2::wanted(), entity);
                }
                return Err(error);
            },
        };
        proof {
            lemma_take_in_turn(before, T0::wanted() + T1::wanted(), T2::wanted(), entity);
        }
        let v2 = match T2::take(world, entity) {
            Ok(value) => value,
            Err(error) => {
                return Err(error);
            },
        };
        Ok((v0, v1, v2))
    }
}

impl<T0: TakeBundle, T1: TakeBundle<Universe = T0::Universe>, T2: TakeBundle<Universe = T0::Universe>, T3: TakeBundle<Universe = T0::Universe>> TakeBundle for (T0, T1, T2, T3) {
    type Universe = T0::Universe;

    type Output = (T0::Output, T1::Output, T2::Output, T3::Output);

    open spec fn wanted() -> Seq<(ComponentId, bool)> {
        T0::wanted() + T1::wanted() + T2::wanted() + T3::wanted()
    }

    open spec fn contents(output: (T0::Output, T1::Output, T2::Output, T3::Output)) -> Seq<
        Option<<T0::Universe as Component>::Model>,
    > {
        T0::contents(output.0) + T1::contents(output.1) + T2::contents(output.2) + T3::contents(output.3)
    }

    fn take(world: &mut World<T0::Universe>, entity: Entity) -> (taken: Result<
        (T0::Output, T1::Output, T2::Output, T3::Output),
        TakeError,
    >) {
        let ghost before = world@;
        let v0 = match T0::take(world, entity) {
            Ok(value) => value,
            Err(error) => {
                proof {
                    lemma_take_in_turn(before, T0::wanted(), T1::wanted(), entity);
                    lemma_take_in_turn(before, T0::wanted() + T1::wanted(), T2::wanted(), entity);
                    lemma_take_in_turn(before, T0::wanted() + T1::wanted() + T2::wanted(), T3::wanted(), entity);
                }
                return Err(error);
            },
        };
        proof {
            lemma_take_in_turn(before, T0::wanted(), T1::wanted(), entity);
        }
        let v1 = match T1::take(world, entity) {
            Ok(value) => value,
            Err(error) => {
                proof {
                    lemma_take_in_turn(before, T0::wanted() + T1::wanted(), T2::wanted(), entity);
                    lemma_take_in_turn(before, T0::wanted() + T1::wanted() + T2::wanted(), T3::wanted(), entity);
                }
                return Err(error);
            },
        };
        proof {
            lemma_take_in_turn(before, T0::wanted() + T1::wanted(), T2::wanted(), entity);
        }
        let v2 = match T2::take(world, entity) {
            Ok(value) => value,
            Err(error) => {
                proof {
                    lemma_take_in_turn(before, T0::wanted() + T1::wanted() + T2::wanted(), T3::wanted(), entity);
                }
                return Err(error);
            },
        };
        proof {
            lemma_take_in_turn(before, T0::wanted() + T1::wanted() + T2::wanted(), T3::wanted(), entity);
        }
        let v3 = match T3::take(world, entity) {
            Ok(value) => value,
            Err(error) => {
                return Err(error);
            },
        };
        Ok((v0, v1, v2, v3))
    }
}

impl<T0: TakeBundle, T1: TakeBundle<Universe = T0::Universe>, T2: TakeBundle<Universe = T0::Universe>, T3: TakeBundle<Universe = T0::Universe>, T4: TakeBundle<Universe = T0::Universe>> TakeBundle for (T0, T1, T2, T3, T4) {
    type Universe = T0::Universe;

    type Output = (T0::Output, T1::Output, T2::Output, T3::Output, T4::Output);

    open spec fn wanted() -> Seq<(ComponentId, bool)> {
        T0::wanted() + T1::wanted() + T2::wanted() + T3::wanted() + T4::wanted()
    }

    open spec fn contents(output: (T0::Output, T1::Output, T2::Output, T3::Output, T4::Output)) -> Seq<
        Option<<T0::Universe as Component>::Model>,
    > {
        T0::contents(output.0) + T1::contents(output.1) + T2::contents(output.2) + T3::contents(output.3) + T4::contents(output.4)
    }

    fn take(world: &mut World<T0::Universe>, entity: Entity) -> (taken: Result<
        (T0::Output, T1::Output, T2::Output, T3::Output, T4::Output),
        TakeError,
    >) {
        let ghost before = world@;
        let v0 = match T0::take(world, entity) {
            Ok(value) => value,
            Err(error) => {
                proof {
                    lemma_take_in_turn(before, T0::wanted(), T1::wanted(), entity);
                    lemma_take_in_turn(before, T0::wanted() + T1::wanted(), T2::wanted(), entity);
                    lemma_take_in_turn(before, T0::wanted() + T1::wanted() + T2::wanted(), T3::wanted(), entity);
                    lemma_take_in_turn(before, T0::wanted() + T1::wanted() + T2::wanted() + T3::wanted(), T4::wanted(), entity);
                }
                return Err(error);
            },
        };
        proof {
            lemma_take_in_turn(before, T0::wanted(), T1::wanted(), entity);
        }
        let v1 = match T1::take(world, entity) {
            Ok(value) => value,
            Err(error) => {
                proof {
                    lemma_take_in_turn(before, T0::wanted() + T1::wanted(), T2::wanted(), entity);
                    lemma_take_in_turn(before, T0::wanted() + T1::wanted() + T2::wanted(), T3::wanted(), entity);
                    lemma_take_in_turn(before, T0::wanted() + T1::wanted() + T2::wanted() + T3::wanted(), T4::wanted(), entity);
                }
                return Err(error);
            },
        };
        proof {
            lemma_take_in_turn(before, T0::wanted() + T1::wanted(), T2::wanted(), entity);
        }
        let v2 = match T2::take(world, entity) {
            Ok(value) => value,
            Err(error) => {
                proof {
                    lemma_take_in_turn(before, T0::wanted() + T1::wanted() + T2::wanted(), T3::wanted(), entity);
                    lemma_take_in_turn(before, T0::wanted() + T1::wanted() + T2::wanted() + T3::wanted(), T4::wanted(), entity);
                }
                return Err(error);
            },
        };
        proof {
            lemma_take_in_turn(before, T0::wanted() + T1::wanted() + T2::wanted(), T3::wanted(), entity);
        }
        let v3 = match T3::take(world, entity) {
            Ok(value) => value,
            Err(error) => {
                proof {
                    lemma_take_in_turn(before, T0::wanted() + T1::wanted() + T2::wanted() + T3::wanted(), T4::wanted(), entity);
                }
                return Err(error);
            },
        };
        proof {
            lemma_take_in_turn(before, T0::wanted() + T1::wanted() + T2::wanted() + T3::wanted(), T4::wanted(), entity);
        }
        let v4 = match T4::take(world, entity) {
            Ok(value) => value,
            Err(error) => {
                return Err(error);
            },
        };
        Ok((v0, v1, v2, v3, v4))
    }
}

impl<T0: TakeBundle, T1: TakeBundle<Universe = T0::Universe>, T2: TakeBundle<Universe = T0::Universe>, T3: TakeBundle<Universe = T0::Universe>, T4: TakeBundle<Universe = T0::Universe>, T5: TakeBundle<Universe = T0::Universe>> TakeBundle for (T0, T1, T2, T3, T4, T5) {
    type Universe = T0::Universe;

    type Output = (T0::Output, T1::Output, T2::Output, T3::Output, T4::Output, T5::Output);

    open spec fn wanted() -> Seq<(ComponentId, bool)> {
        T0::wanted() + T1::wanted() + T2::wanted() + T3::wanted() + T4::wanted() + T5::wanted()
    }

    open spec fn contents(output: (T0::Output, T1::Output, T2::Output, T3::Output, T4::Output, T5::Output)) -> Seq<
        Option<<T0::Universe as Component>::Model>,
    > {
        T0::contents(output.0) + T1::contents(output.1) + T2::contents(output.2) + T3::contents(output.3) + T4::contents(output.4) + T5::contents(output.5)
    }

    fn take(world: &mut World<T0::Universe>, entity: Entity) -> (taken: Result<
        (T0::Output, T1::Output, T2::Output, T3::Output, T4::Output, T5::Output),
        TakeError,
    >) {
        let ghost before = world@;
        let v0 = match T0::take(world, entity) {
            Ok(value) => value,
            Err(error) => {
                proof {
                    lemma_take_in_turn(before, T0::wanted(), T1::wanted(), entity);
                    lemma_take_in_turn(before, T0::wanted() + T1::wanted(), T2::wanted(), entity);
                    lemma_take_in_turn(before, T0::wanted() + T1::wanted() + T2::wanted(), T3::wanted(), entity);
                    lemma_take_in_turn(before, T0::wanted() + T1::wanted() + T2::wanted() + T3::wanted(), T4::wanted(), entity);
                    lemma_take_in_turn(before, T0::wanted() + T1::wanted() + T2::wanted() + T3::wanted() + T4::wanted(), T5::wanted(), entity);
                }
                return Err(error);
            },
        };
        proof {
            lemma_take_in_turn(before, T0::wanted(), T1::wanted(), entity);
        }
        let v1 = match T1::take(world, entity) {
            Ok(value) => value,
            Err(error) => {
                proof {
                    lemma_take_in_turn(before, T0::wanted() + T1::wanted(), T2::wanted(), entity);
                    lemma_take_in_turn(before, T0::wanted() + T1::wanted() + T2::wanted(), T3::wanted(), entity);
                    lemma_take_in_turn(before, T0::wanted() + T1::wanted() + T2::wanted() + T3::wanted(), T4::wanted(), entity);
                    lemma_take_in_turn(before, T0::wanted() + T1::wanted() + T2::wanted() + T3::wanted() + T4::wanted(), T5::wanted(), entity);
                }
                return Err(error);
            },
        };
        proof {
            lemma_take_in_turn(before, T0::wanted() + T1::wanted(), T2::wanted(), entity);
        }
        let v2 = match T2::take(world, entity) {
            Ok(value) => value,
            Err(error) => {
                proof {
                    lemma_take_in_turn(before, T0::wanted() + T1::wanted() + T2::wanted(), T3::wanted(), entity);
                    lemma_take_in_turn(before, T0::wanted() + T1::wanted() + T2::wanted() + T3::wanted(), T4::wanted(), entity);
                    lemma_take_in_turn(before, T0::wanted() + T1::wanted() + T2::wanted() + T3::wanted() + T4::wanted(), T5::wanted(), entity);
                }
                return Err(error);
            },
        };
        proof {
            lemma_take_in_turn(before, T0::wanted() + T1::wanted() + T2::wanted(), T3::wanted(), entity);
        }
        let v3 = match T3::take(world, entity) {
            Ok(value) => value,
            Err(error) => {
                proof {
                    lemma_take_in_turn(before, T0::wanted() + T1::wanted() + T2::wanted() + T3::wanted(), T4::wanted(), entity);
                    lemma_take_in_turn(before, T0::wanted() + T1::wanted() + T2::wanted() + T3::wanted() + T4::wanted(), T5::wanted(), entity);
                }
                return Err(error);
            },
        };
        proof {
            lemma_take_in_turn(before, T0::wanted() + T1::wanted() + T2::wanted() + T3::wanted(), T4::wanted(), entity);
        }
        let v4 = match T4::take(world, entity) {
            Ok(value) => value,
            Err(error) => {
                proof {
                    lemma_take_in_turn(before, T0::wanted() + T1::wanted() + T2::wanted() + T3::wanted() + T4::wanted(), T5::wanted(), entity);
                }
                return Err(error);
            },
        };
        proof {
            lemma_take_in_turn(before, T0::wanted() + T1::wanted() + T2::wanted() + T3::wanted() + T4::wanted(), T5::wanted(), entity);
        }
        let v5 = match T5::take(world, entity) {
            Ok(value) => value,
            Err(error) => {
                return Err(error);
            },
        };
        Ok((v0, v1, v2, v3, v4, v5))
    }
}

impl<T0: TakeBundle, T1: TakeBundle<Universe = T0::Universe>, T2: TakeBundle<Universe = T0::Universe>, T3: TakeBundle<Universe = T0::Universe>, T4: TakeBundle<Universe = T0::Universe>, T5: TakeBundle<Universe = T0::Universe>, T6: TakeBundle<Universe = T0::Universe>> TakeBundle for (T0, T1, T2, T3, T4, T5, T6) {
    type Universe = T0::Universe;

    type Output = (T0::Output, T1::Output, T2::Output, T3::Output, T4::Output, T5::Output, T6::Output);

    open spec fn wanted() -> Seq<(ComponentId, bool)> {
        T0::wanted() + T1::wanted() + T2::wanted() + T3::wanted() + T4::wanted() + T5::wanted() + T6::wanted()
    }

    open spec fn contents(output: (T0::Output, T1::Output, T2::Output, T3::Output, T4::Output, T5::Output, T6::Output)) -> Seq<
        Option<<T0::Universe as Component>::Model>,
    > {
        T0::contents(output.0) + T1::contents(output.1) + T2::contents(output.2) + T3::contents(output.3) + T4::contents(output.4) + T5::contents(output.5) + T6::contents(output.6)
    }

    fn take(world: &mut World<T0::Universe>, entity: Entity) -> (taken: Result<
        (T0::Output, T1::Output, T2::Output, T3::Output, T4::Output, T5::Output, T6::Output),
        TakeError,
    >) {
        let ghost before = world@;
        let v0 = match T0::take(world, entity) {
            Ok(value) => value,
            Err(error) => {
                proof {
                    lemma_take_in_turn(before, T0::wanted(), T1::wanted(), entity);
                    lemma_take_in_turn(before, T0::wanted() + T1::wanted(), T2::wanted(), entity);
                    lemma_take_in_turn(before, T0::wanted() + T1::wanted() + T2::wanted(), T3::wanted(), entity);
                    lemma_take_in_turn(before, T0::wanted() + T1::wanted() + T2::wanted() + T3::wanted(), T4::wanted(), entity);
                    lemma_take_in_turn(before, T0::wanted() + T1::wanted() + T2::wanted() + T3::wanted() + T4::wanted(), T5::wanted(), entity);
                    lemma_take_in_turn(before, T0::wanted() + T1::wanted() + T2::wanted() + T3::wanted() + T4::wanted() + T5::wanted(), T6::wanted(), entity);
                }
                return Err(error);
            },
        };
        proof {
            lemma_take_in_turn(before, T0::wanted(), T1::wanted(), entity);
        }
        let v1 = match T1::take(world, entity) {
            Ok(value) => value,
            Err(error) => {
                proof {
                    lemma_take_in_turn(before, T0::wanted() + T1::wanted(), T2::wanted(), entity);
                    lemma_take_in_turn(before, T0::wanted() + T1::wanted() + T2::wanted(), T3::wanted(), entity);
                    lemma_take_in_turn(before, T0::wanted() + T1::wanted() + T2::wanted() + T3::wanted(), T4::wanted(), entity);
                    lemma_take_in_turn(before, T0::wanted() + T1::wanted() + T2::wanted() + T3::wanted() + T4::wanted(), T5::wanted(), entity);
                    lemma_take_in_turn(before, T0::wanted() + T1::wanted() + T2::wanted() + T3::wanted() + T4::wanted() + T5::wanted(), T6::wanted(), entity);
                }
                return Err(error);
            },
        };
        proof {
            lemma_take_in_turn(before, T0::wanted() + T1::wanted(), T2::wanted(), entity);
        }
        let v2 = match T2::take(world, entity) {
            Ok(value) => value,
            Err(error) => {
                proof {
                    lemma_take_in_turn(before, T0::wanted() + T1::wanted() + T2::wanted(), T3::wanted(), entity);
                    lemma_take_in_turn(before, T0::wanted() + T1::wanted() + T2::wanted() + T3::wanted(), T4::wanted(), entity);
                    lemma_take_in_turn(before, T0::wanted() + T1::wanted() + T2::wanted() + T3::wanted() + T4::wanted(), T5::wanted(), entity);
                    lemma_take_in_turn(before, T0::wanted() + T1::wanted() + T2::wanted() + T3::wanted() + T4::wanted() + T5::wanted(), T6::wanted(), entity);
                }
                return Err(error);
            },
        };
        proof {
            lemma_take_in_turn(before, T0::wanted() + T1::wanted() + T2::wanted(), T3::wanted(), entity);
        }
        let v3 = match T3::take(world, entity) {
            Ok(value) => value,
            Err(error) => {
                proof {
                    lemma_take_in_turn(before, T0::wanted() + T1::wanted() + T2::wanted() + T3::wanted(), T4::wanted(), entity);
                    lemma_take_in_turn(before, T0::wanted() + T1::wanted() + T2::wanted() + T3::wanted() + T4::wanted(), T5::wanted(), entity);
                    lemma_take_in_turn(before, T0::wanted() + T1::wanted() + T2::wanted() + T3::wanted() + T4::wanted() + T5::wanted(), T6::wanted(), entity);
                }
                return Err(error);
            },
        };
        proof {
            lemma_take_in_turn(before, T0::wanted() + T1::wanted() + T2::wanted() + T3::wanted(), T4::wanted(), entity);
        }
        let v4 = match T4::take(world, entity) {
            Ok(value) => value,
            Err(error) => {
                proof {
                    lemma_take_in_turn(before, T0::wanted() + T1::wanted() + T2::wanted() + T3::wanted() + T4::wanted(), T5::wanted(), entity);
                    lemma_take_in_turn(before, T0::wanted() + T1::wanted() + T2::wanted() + T3::wanted() + T4::wanted() + T5::wanted(), T6::wanted(), entity);
                }
                return Err(error);
            },
        };
        proof {
            lemma_take_in_turn(before, T0::wanted() + T1::wanted() + T2::wanted() + T3::wanted() + T4::wanted(), T5::wanted(), entity);
        }
        let v5 = match T5::take(world, entity) {
            Ok(value) => value,
            Err(error) => {
                proof {
                    lemma_take_in_turn(before, T0::wanted() + T1::wanted() + T2::wanted() + T3::wanted() + T4::wanted() + T5::wanted(), T6::wanted(), entity);
                }
                return Err(error);
            },
        };
        proof {
            lemma_take_in_turn(before, T0::wanted() + T1::wanted() + T2::wanted() + T3::wanted() + T4::wanted() + T5::wanted(), T6::wanted(), entity);
        }
        let v6 = match T6::take(world, entity) {
            Ok(value) => value,
            Err(error) => {
                return Err(error);
            },
        };
        Ok((v0, v1, v2, v3, v4, v5, v6))
    }
}

impl<T0: TakeBundle, T1: TakeBundle<Universe = T0::Universe>, T2: TakeBundle<Universe = T0::Universe>, T3: TakeBundle<Universe = T0::Universe>, T4: TakeBundle<Universe = T0::Universe>, T5: TakeBundle<Universe = T0::Universe>, T6: TakeBundle<Universe = T0::Universe>, T7: TakeBundle<Universe = T0::Universe>> TakeBundle for (T0, T1, T2, T3, T4, T5, T6, T7) {
    type Universe = T0::Universe;

    type Output = (T0::Output, T1::Output, T2::Output, T3::Output, T4::Output, T5::Output, T6::Output, T7::Output);

    open spec fn wanted() -> Seq<(ComponentId, bool)> {
        T0::wanted() + T1::wanted() + T2::wanted() + T3::wanted() + T4::wanted() + T5::wanted() + T6::wanted() + T7::wanted()
    }

    open spec fn contents(output: (T0::Output, T1::Output, T2::Output, T3::Output, T4::Output, T5::Output, T6::Output, T7::Output)) -> Seq<
        Option<<T0::Universe as Component>::Model>,
    > {
        T0::contents(output.0) + T1::contents(output.1) + T2::contents(output.2) + T3::contents(output.3) + T4::contents(output.4) + T5::contents(output.5) + T6::contents(output.6) + T7::contents(output.7)
    }

    fn take(world: &mut World<T0::Universe>, entity: Entity) -> (taken: Result<
        (T0::Output, T1::Output, T2::Output, T3::Output, T4::Output, T5::Output, T6::Output, T7::Output),
        TakeError,
    >) {
        let ghost before = world@;
        let v0 = match T0::take(world, entity) {
            Ok(value) => value,
            Err(error) => {
                proof {
                    lemma_take_in_turn(before, T0::wanted(), T1::wanted(), entity);
                    lemma_take_in_turn(before, T0::wanted() + T1::wanted(), T2::wanted(), entity);
                    lemma_take_in_turn(before, T0::wanted() + T1::wanted() + T2::wanted(), T3::wanted(), entity);
                    lemma_take_in_turn(before, T0::wanted() + T1::wanted() + T2::wanted() + T3::wanted(), T4::wanted(), entity);
                    lemma_take_in_turn(before, T0::wanted() + T1::wanted() + T2::wanted() + T3::wanted() + T4::wanted(), T5::wanted(), entity);
                    lemma_take_in_turn(before, T0::wanted() + T1::wanted() + T2::wanted() + T3::wanted() + T4::wanted() + T5::wanted(), T6::wanted(), entity);
                    lemma_take_in_turn(before, T0::wanted() + T1::wanted() + T2::wanted() + T3::wanted() + T4::wanted() + T5::wanted() + T6::wanted(), T7::wanted(), entity);
                }
                return Err(error);
            },
        };
        proof {
            lemma_take_in_turn(before, T0::wanted(), T1::wanted(), entity);
        }
        let v1 = match T1::take(world, entity) {
            Ok(value) => value,
            Err(error) => {
                proof {
                    lemma_take_in_turn(before, T0::wanted() + T1::wanted(), T2::wanted(), entity);
                    lemma_take_in_turn(before, T0::wanted() + T1::wanted() + T2::wanted(), T3::wanted(), entity);
                    lemma_take_in_turn(before, T0::wanted() + T1::wanted() + T2::wanted() + T3::wanted(), T4::wanted(), entity);
                    lemma_take_in_turn(before, T0::wanted() + T1::wanted() + T2::wanted() + T3::wanted() + T4::wanted(), T5::wanted(), entity);
                    lemma_take_in_turn(before, T0::wanted() + T1::wanted() + T2::wanted() + T3::wanted() + T4::wanted() + T5::wanted(), T6::wanted(), entity);
                    lemma_take_in_turn(before, T0::wanted() + T1::wanted() + T2::wanted() + T3::wanted() + T4::wanted() + T5::wanted() + T6::wanted(), T7::wanted(), entity);
                }
                return Err(error);
            },
        };
        proof {
            lemma_take_in_turn(before, T0::wanted() + T1::wanted(), T2::wanted(), entity);
        }
        let v2 = match T2::take(world, entity) {
            Ok(value) => value,
            Err(error) => {
                proof {
                    lemma_take_in_turn(before, T0::wanted() + T1::wanted() + T2::wanted(), T3::wanted(), entity);
                    lemma_take_in_turn(before, T0::wanted() + T1::wanted() + T2::wanted() + T3::wanted(), T4::wanted(), entity);
                    lemma_take_in_turn(before, T0::wanted() + T1::wanted() + T2::wanted() + T3::wanted() + T4::wanted(), T5::wanted(), entity);
                    lemma_take_in_turn(before, T0::wanted() + T1::wanted() + T2::wanted() + T3::wanted() + T4::wanted() + T5::wanted(), T6::wanted(), entity);
                    lemma_take_in_turn(before, T0::wanted() + T1::wanted() + T2::wanted() + T3::wanted() + T4::wanted() + T5::wanted() + T6::wanted(), T7::wanted(), entity);
                }
                return Err(error);
            },
        };
        proof {
            lemma_take_in_turn(before, T0::wanted() + T1::wanted() + T2::wanted(), T3::wanted(), entity);
        }
        let v3 = match T3::take(world, entity) {
            Ok(value) => value,
            Err(error) => {
                proof {
                    lemma_take_in_turn(before, T0::wanted() + T1::wanted() + T2::wanted() + T3::wanted(), T4::wanted(), entity);
                    lemma_take_in_turn(before, T0::wanted() + T1::wanted() + T2::wanted() + T3::wanted() + T4::wanted(), T5::wanted(), entity);
                    lemma_take_in_turn(before, T0::wanted() + T1::wanted() + T2::wanted() + T3::wanted() + T4::wanted() + T5::wanted(), T6::wanted(), entity);
                    lemma_take_in_turn(before, T0::wanted() + T1::wanted() + T2::wanted() + T3::wanted() + T4::wanted() + T5::wanted() + T6::wanted(), T7::wanted(), entity);
                }
                return Err(error);
            },
        };
        proof {
            lemma_take_in_turn(before, T0::wanted() + T1::wanted() + T2::wanted() + T3::wanted(), T4::wanted(), entity);
        }
        let v4 = match T4::take(world, entity) {
            Ok(value) => value,
            Err(error) => {
                proof {
                    lemma_take_in_turn(before, T0::wanted() + T1::wanted() + T2::wanted() + T3::wanted() + T4::wanted(), T5::wanted(), entity);
                    lemma_take_in_turn(before, T0::wanted() + T1::wanted() + T2::wanted() + T3::wanted() + T4::wanted() + T5::wanted(), T6::wanted(), entity);
                    lemma_take_in_turn(before, T0::wanted() + T1::wanted() + T2::wanted() + T3::wanted() + T4::wanted() + T5::wanted() + T6::wanted(), T7::wanted(), entity);
                }
                return Err(error);
            },
        };
        proof {
            lemma_take_in_turn(before, T0::wanted() + T1::wanted() + T2::wanted() + T3::wanted() + T4::wanted(), T5::wanted(), entity);
        }
        let v5 = match T5::take(world, entity) {
            Ok(value) => value,
            Err(error) => {
                proof {
                    lemma_take_in_turn(before, T0::wanted() + T1::wanted() + T2::wanted() + T3::wanted() + T4::wanted() + T5::wanted(), T6::wanted(), entity);
                    lemma_take_in_turn(before, T0::wanted() + T1::wanted() + T2::wanted() + T3::wanted() + T4::wanted() + T5::wanted() + T6::wanted(), T7::wanted(), entity);
                }
                return Err(error);
            },
        };
        proof {
            lemma_take_in_turn(before, T0::wanted() + T1::wanted() + T2::wanted() + T3::wanted() + T4::wanted() + T5::wanted(), T6::wanted(), entity);
        }
        let v6 = match T6::take(world, entity) {
            Ok(value) => value,
            Err(error) => {
                proof {
                    lemma_take_in_turn(before, T0::wanted() + T1::wanted() + T2::wanted() + T3::wanted() + T4::wanted() + T5::wanted() + T6::wanted(), T7::wanted(), entity);
                }
                return Err(error);
            },
        };
        proof {
            lemma_take_in_turn(before, T0::wanted() + T1::wanted() + T2::wanted() + T3::wanted() + T4::wanted() + T5::wanted() + T6::wanted(), T7::wanted(), entity);
        }
        let v7 = match T7::take(world, entity) {
            Ok(value) => value,
            Err(error) => {
                return Err(error);
            },
        };
        Ok((v0, v1, v2, v3, v4, v5, v6, v7))
    }
}

/// Whether `after` is `before` with each of `entities` cleaned up, in order.
pub open spec fn cleaned_each<C: RelationshipTarget>(
    before: StateModel<C>,
    after: StateModel<C>,
    entities: Seq<Entity>,
) -> bool
    decreases entities.len(),
{
    if entities.len() == 0 {
        after == before
    } else {
        exists|middle: StateModel<C>|
            cleaned_each(before, middle, entities.drop_last()) && #[trigger] cleaned(
                middle,
                after,
                entities.last(),
            )
    }
}

/// The state whose settled revision follows its world when `settled` says that it
/// was settled before: a removal does not unsettle a settled bowl, and must not
/// declare an unsettled one settled.
pub open spec fn resettled<C: RelationshipTarget>(state: StateModel<C>, settled: bool) -> StateModel<
    C,
> {
    if settled {
        StateModel { settled_revision: state.world.revision, ..state }
    } else {
        state
    }
}

/// The state once components are taken off `entity`. A retained snapshot would
/// keep them alive, so it is given up.
pub open spec fn taken_from<C: RelationshipTarget>(
    state: StateModel<C>,
    wanted: Seq<(ComponentId, bool)>,
    entity: Entity,
) -> StateModel<C> {
    StateModel { world: take_all(state.world, wanted, entity).0, retained: None, ..state }
}

impl<C: RelationshipTarget> State<C> {
    fn resettle(&mut self, settled: bool)
        requires
            old(self).wf(),
        ensures
            final(self).wf(),
            final(self)@ == resettled(old(self)@, settled),
    {
        if settled {
            self.settled_revision = self.world.revision_raw();
        }
    }

    /// Takes the requested components, then removes the bound entity with
    /// everything scoped to it, whether or not the take succeeded.
    pub fn take_bound<T: TakeBundle<Universe = C>>(&mut self, entity: Entity) -> (taken: Result<
        T::Output,
        TakeError,
    >)
        requires
            old(self).wf(),
        ensures
            final(self).wf(),
            ({
                let after = take_all(old(self)@.world, T::wanted(), entity);
                &&& match taken {
                    Ok(output) => after.1 == Ok::<Seq<Option<C::Model>>, ComponentId>(
                        T::contents(output),
                    ),
                    Err(error) => after.1 matches Err(kind) && error.subject() == entity
                        && error.lacking() == C::label(kind),
                }
                &&& exists|cleared: StateModel<C>| #[trigger]
                    cleaned(
                        taken_from(old(self)@, T::wanted(), entity),
                        cleared,
                        entity,
                    ) && final(self)@ == resettled(cleared, old(self)@.is_settled())
            }),
    {
        self.snapshot_cache = None;
        self.settled_snapshot = None;
        let settled = self.is_settled();
        let taken = T::take(&mut self.world, entity);
        self.cleanup_bound_entity(entity);
        self.resettle(settled);
        taken
    }

    /// Removes entities with everything scoped to them: rows that a reader
    /// consumed, or bound entities that were dropped without a take.
    pub fn cleanup_all(&mut self, entities: &Vec<Entity>)
        requires
            old(self).wf(),
        ensures
            final(self).wf(),
            exists|cleared: StateModel<C>| #[trigger]
                cleaned_each(old(self)@, cleared, entities@) && final(self)@ == resettled(
                    cleared,
                    old(self)@.is_settled(),
                ),
    {
        let settled = self.is_settled();
        let ghost before = self@;
        let mut i: usize = 0;
        assert(entities@.take(0) =~= Seq::<Entity>::empty());
        while i < entities.len()
            invariant
                self.wf(),
                i <= entities@.len(),
                cleaned_each(before, self@, entities@.take(i as int)),
            decreases entities@.len() - i,
        {
            let ghost middle = self@;
            assert(entities@.take(i + 1).drop_last() =~= entities@.take(i as int));
            assert(entities@.take(i + 1).last() == entities@[i as int]);
            self.cleanup_bound_entity(entities[i]);
            assert(cleaned_each(before, middle, entities@.take(i + 1).drop_last()));
            i = i + 1;
        }
        assert(entities@.take(entities@.len() as int) =~= entities@);
        self.resettle(settled);
    }
}

} // verus!
