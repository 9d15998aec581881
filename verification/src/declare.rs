//! Output declarations: type-level membership, so that a command buffer can
//! only emit what it declares, plus runtime enumeration of the declared set.
//!
//! A declaration is a tuple mixing component types and groups, which are tuples
//! themselves. Membership is proved structurally: a component is its own group,
//! tuples are searched head and tail with marker types recording the path, and
//! `Option<T>` declares `T`.

use crate::component::{Component, ComponentId, ComponentType};
use crate::entity::Untyped;
use vstd::prelude::*;

verus! {

/// Wildcard output declaration.
pub struct Anything;

/// Membership-proof marker: matched by reflexivity.
pub struct ExactMatch;

/// Membership-proof marker: matched the head of a declaration tuple.
pub struct Here<M>(M);

/// Membership-proof marker: matched in the tail of a declaration tuple.
pub struct There<M>(M);

/// Membership-proof marker: matched inside `Option<..>`.
pub struct Optionally<M>(M);

/// Membership-proof marker: matched the wildcard.
pub struct WildcardMatch;

/// Component `Self` is declared in `S`; `M` records the proof path.
pub trait DeclaredIn<S, M> {

}

impl<C: ComponentType> DeclaredIn<C, ExactMatch> for C {

}

impl<C: ComponentType> DeclaredIn<Anything, WildcardMatch> for C {

}

impl<C, T, M> DeclaredIn<Option<T>, Optionally<M>> for C where C: DeclaredIn<T, M> {

}

impl<C, T0, M> DeclaredIn<(T0,), Here<M>> for C where C: DeclaredIn<T0, M> {

}

impl<C, T0, M> DeclaredIn<(T0,), There<M>> for C where C: DeclaredIn<(), M> {

}

impl<C, T0, T1, M> DeclaredIn<(T0, T1), Here<M>> for C where C: DeclaredIn<T0, M> {

}

impl<C, T0, T1, M> DeclaredIn<(T0, T1), There<M>> for C where C: DeclaredIn<(T1,), M> {

}

impl<C, T0, T1, T2, M> DeclaredIn<(T0, T1, T2), Here<M>> for C where C: DeclaredIn<T0, M> {

}

impl<C, T0, T1, T2, M> DeclaredIn<(T0, T1, T2), There<M>> for C where C: DeclaredIn<(T1, T2), M> {

}

impl<C, T0, T1, T2, T3, M> DeclaredIn<(T0, T1, T2, T3), Here<M>> for C where C: DeclaredIn<T0, M> {

}

impl<C, T0, T1, T2, T3, M> DeclaredIn<(T0, T1, T2, T3), There<M>> for C where C: DeclaredIn<(T1, T2, T3), M> {

}

impl<C, T0, T1, T2, T3, T4, M> DeclaredIn<(T0, T1, T2, T3, T4), Here<M>> for C where C: DeclaredIn<T0, M> {

}

impl<C, T0, T1, T2, T3, T4, M> DeclaredIn<(T0, T1, T2, T3, T4), There<M>> for C where C: DeclaredIn<(T1, T2, T3, T4), M> {

}

impl<C, T0, T1, T2, T3, T4, T5, M> DeclaredIn<(T0, T1, T2, T3, T4, T5), Here<M>> for C where C: DeclaredIn<T0, M> {

}

impl<C, T0, T1, T2, T3, T4, T5, M> DeclaredIn<(T0, T1, T2, T3, T4, T5), There<M>> for C where C: DeclaredIn<(T1, T2, T3, T4, T5), M> {

}

impl<C, T0, T1, T2, T3, T4, T5, T6, M> DeclaredIn<(T0, T1, T2, T3, T4, T5, T6), Here<M>> for C where C: DeclaredIn<T0, M> {

}

impl<C, T0, T1, T2, T3, T4, T5, T6, M> DeclaredIn<(T0, T1, T2, T3, T4, T5, T6), There<M>> for C where C: DeclaredIn<(T1, T2, T3, T4, T5, T6), M> {

}

impl<C, T0, T1, T2, T3, T4, T5, T6, T7, M> DeclaredIn<(T0, T1, T2, T3, T4, T5, T6, T7), Here<M>> for C where C: DeclaredIn<T0, M> {

}

impl<C, T0, T1, T2, T3, T4, T5, T6, T7, M> DeclaredIn<(T0, T1, T2, T3, T4, T5, T6, T7), There<M>> for C where C: DeclaredIn<(T1, T2, T3, T4, T5, T6, T7), M> {

}

/// Every component of bundle `Self` is declared in `S`.
pub trait BundleDeclaredIn<S, M> {

}

impl<S, C0, M0> BundleDeclaredIn<S, (M0,)> for (C0,) where
    C0: DeclaredIn<S, M0>, {

}

impl<S, C0, C1, M0, M1> BundleDeclaredIn<S, (M0, M1)> for (C0, C1) where
    C0: DeclaredIn<S, M0>,
    C1: DeclaredIn<S, M1>, {

}

impl<S, C0, C1, C2, M0, M1, M2> BundleDeclaredIn<S, (M0, M1, M2)> for (C0, C1, C2) where
    C0: DeclaredIn<S, M0>,
    C1: DeclaredIn<S, M1>,
    C2: DeclaredIn<S, M2>, {

}

impl<S, C0, C1, C2, C3, M0, M1, M2, M3> BundleDeclaredIn<S, (M0, M1, M2, M3)> for (C0, C1, C2, C3) where
    C0: DeclaredIn<S, M0>,
    C1: DeclaredIn<S, M1>,
    C2: DeclaredIn<S, M2>,
    C3: DeclaredIn<S, M3>, {

}

impl<S, C0, C1, C2, C3, C4, M0, M1, M2, M3, M4> BundleDeclaredIn<S, (M0, M1, M2, M3, M4)> for (C0, C1, C2, C3, C4) where
    C0: DeclaredIn<S, M0>,
    C1: DeclaredIn<S, M1>,
    C2: DeclaredIn<S, M2>,
    C3: DeclaredIn<S, M3>,
    C4: DeclaredIn<S, M4>, {

}

impl<S, C0, C1, C2, C3, C4, C5, M0, M1, M2, M3, M4, M5> BundleDeclaredIn<S, (M0, M1, M2, M3, M4, M5)> for (C0, C1, C2, C3, C4, C5) where
    C0: DeclaredIn<S, M0>,
    C1: DeclaredIn<S, M1>,
    C2: DeclaredIn<S, M2>,
    C3: DeclaredIn<S, M3>,
    C4: DeclaredIn<S, M4>,
    C5: DeclaredIn<S, M5>, {

}

impl<S, C0, C1, C2, C3, C4, C5, C6, M0, M1, M2, M3, M4, M5, M6> BundleDeclaredIn<S, (M0, M1, M2, M3, M4, M5, M6)> for (C0, C1, C2, C3, C4, C5, C6) where
    C0: DeclaredIn<S, M0>,
    C1: DeclaredIn<S, M1>,
    C2: DeclaredIn<S, M2>,
    C3: DeclaredIn<S, M3>,
    C4: DeclaredIn<S, M4>,
    C5: DeclaredIn<S, M5>,
    C6: DeclaredIn<S, M6>, {

}

impl<S, C0, C1, C2, C3, C4, C5, C6, C7, M0, M1, M2, M3, M4, M5, M6, M7> BundleDeclaredIn<S, (M0, M1, M2, M3, M4, M5, M6, M7)> for (C0, C1, C2, C3, C4, C5, C6, C7) where
    C0: DeclaredIn<S, M0>,
    C1: DeclaredIn<S, M1>,
    C2: DeclaredIn<S, M2>,
    C3: DeclaredIn<S, M3>,
    C4: DeclaredIn<S, M4>,
    C5: DeclaredIn<S, M5>,
    C6: DeclaredIn<S, M6>,
    C7: DeclaredIn<S, M7>, {

}

/// Membership-proof marker: a required shape part found in the bundle.
pub struct RequiredHere<M>(M);

/// Membership-proof marker: an optional shape part, exempt from presence.
pub struct OptionalSkip;

/// Shape part `Self` imposes its presence requirement on bundle `B`: required
/// parts must appear in the bundle, `Option<T>` parts are exempt.
pub trait RequiredPartIn<B, M> {

}

impl<T, B> RequiredPartIn<B, OptionalSkip> for Option<T> {

}

impl<C: ComponentType, B, M> RequiredPartIn<B, RequiredHere<M>> for C where C: DeclaredIn<B, M> {

}

/// All required parts of shape `Self` are present in bundle `B`.
pub trait CoveredBy<B, M> {

}

impl<C: ComponentType, B, M> CoveredBy<B, RequiredHere<M>> for C where C: DeclaredIn<B, M> {

}

impl<B, P0, M0> CoveredBy<B, (M0,)> for (P0,) where
    P0: RequiredPartIn<B, M0>, {

}

impl<B, P0, P1, M0, M1> CoveredBy<B, (M0, M1)> for (P0, P1) where
    P0: RequiredPartIn<B, M0>,
    P1: RequiredPartIn<B, M1>, {

}

impl<B, P0, P1, P2, M0, M1, M2> CoveredBy<B, (M0, M1, M2)> for (P0, P1, P2) where
    P0: RequiredPartIn<B, M0>,
    P1: RequiredPartIn<B, M1>,
    P2: RequiredPartIn<B, M2>, {

}

impl<B, P0, P1, P2, P3, M0, M1, M2, M3> CoveredBy<B, (M0, M1, M2, M3)> for (P0, P1, P2, P3) where
    P0: RequiredPartIn<B, M0>,
    P1: RequiredPartIn<B, M1>,
    P2: RequiredPartIn<B, M2>,
    P3: RequiredPartIn<B, M3>, {

}

impl<B, P0, P1, P2, P3, P4, M0, M1, M2, M3, M4> CoveredBy<B, (M0, M1, M2, M3, M4)> for (P0, P1, P2, P3, P4) where
    P0: RequiredPartIn<B, M0>,
    P1: RequiredPartIn<B, M1>,
    P2: RequiredPartIn<B, M2>,
    P3: RequiredPartIn<B, M3>,
    P4: RequiredPartIn<B, M4>, {

}

impl<B, P0, P1, P2, P3, P4, P5, M0, M1, M2, M3, M4, M5> CoveredBy<B, (M0, M1, M2, M3, M4, M5)> for (P0, P1, P2, P3, P4, P5) where
    P0: RequiredPartIn<B, M0>,
    P1: RequiredPartIn<B, M1>,
    P2: RequiredPartIn<B, M2>,
    P3: RequiredPartIn<B, M3>,
    P4: RequiredPartIn<B, M4>,
    P5: RequiredPartIn<B, M5>, {

}

impl<B, P0, P1, P2, P3, P4, P5, P6, M0, M1, M2, M3, M4, M5, M6> CoveredBy<B, (M0, M1, M2, M3, M4, M5, M6)> for (P0, P1, P2, P3, P4, P5, P6) where
    P0: RequiredPartIn<B, M0>,
    P1: RequiredPartIn<B, M1>,
    P2: RequiredPartIn<B, M2>,
    P3: RequiredPartIn<B, M3>,
    P4: RequiredPartIn<B, M4>,
    P5: RequiredPartIn<B, M5>,
    P6: RequiredPartIn<B, M6>, {

}

impl<B, P0, P1, P2, P3, P4, P5, P6, P7, M0, M1, M2, M3, M4, M5, M6, M7> CoveredBy<B, (M0, M1, M2, M3, M4, M5, M6, M7)> for (P0, P1, P2, P3, P4, P5, P6, P7) where
    P0: RequiredPartIn<B, M0>,
    P1: RequiredPartIn<B, M1>,
    P2: RequiredPartIn<B, M2>,
    P3: RequiredPartIn<B, M3>,
    P4: RequiredPartIn<B, M4>,
    P5: RequiredPartIn<B, M5>,
    P6: RequiredPartIn<B, M6>,
    P7: RequiredPartIn<B, M7>, {

}

/// Bundle `Self` matches shape `H`: every bundle component is part of the shape,
/// and every required part of the shape is in the bundle.
pub trait MatchesShape<H, M> {

}

impl<B, H, M1, M2> MatchesShape<H, (M1, M2)> for B where
    B: BundleDeclaredIn<H, M1>,
    H: CoveredBy<B, M2>,
 {

}

/// Bundle `Self` matches one shape declared in `S`; `Shape` names it.
pub trait SpawnsAs<S, M> {
    /// The matched shape: the facet of the spawned entity's handle.
    type Shape;
}

impl<B, T0, M> SpawnsAs<(T0,), Here<M>> for B where B: MatchesShape<T0, M> {
    type Shape = T0;
}

impl<B, T0, T1, M> SpawnsAs<(T0, T1), Here<M>> for B where B: MatchesShape<T0, M> {
    type Shape = T0;
}

impl<B, T0, T1, M> SpawnsAs<(T0, T1), There<M>> for B where B: SpawnsAs<(T1,), M> {
    type Shape = <B as SpawnsAs<(T1,), M>>::Shape;
}

impl<B, T0, T1, T2, M> SpawnsAs<(T0, T1, T2), Here<M>> for B where B: MatchesShape<T0, M> {
    type Shape = T0;
}

impl<B, T0, T1, T2, M> SpawnsAs<(T0, T1, T2), There<M>> for B where B: SpawnsAs<(T1, T2), M> {
    type Shape = <B as SpawnsAs<(T1, T2), M>>::Shape;
}

impl<B, T0, T1, T2, T3, M> SpawnsAs<(T0, T1, T2, T3), Here<M>> for B where B: MatchesShape<T0, M> {
    type Shape = T0;
}

impl<B, T0, T1, T2, T3, M> SpawnsAs<(T0, T1, T2, T3), There<M>> for B where B: SpawnsAs<(T1, T2, T3), M> {
    type Shape = <B as SpawnsAs<(T1, T2, T3), M>>::Shape;
}

impl<B, T0, T1, T2, T3, T4, M> SpawnsAs<(T0, T1, T2, T3, T4), Here<M>> for B where B: MatchesShape<T0, M> {
    type Shape = T0;
}

impl<B, T0, T1, T2, T3, T4, M> SpawnsAs<(T0, T1, T2, T3, T4), There<M>> for B where B: SpawnsAs<(T1, T2, T3, T4), M> {
    type Shape = <B as SpawnsAs<(T1, T2, T3, T4), M>>::Shape;
}

impl<B, T0, T1, T2, T3, T4, T5, M> SpawnsAs<(T0, T1, T2, T3, T4, T5), Here<M>> for B where B: MatchesShape<T0, M> {
    type Shape = T0;
}

impl<B, T0, T1, T2, T3, T4, T5, M> SpawnsAs<(T0, T1, T2, T3, T4, T5), There<M>> for B where B: SpawnsAs<(T1, T2, T3, T4, T5), M> {
    type Shape = <B as SpawnsAs<(T1, T2, T3, T4, T5), M>>::Shape;
}

impl<B, T0, T1, T2, T3, T4, T5, T6, M> SpawnsAs<(T0, T1, T2, T3, T4, T5, T6), Here<M>> for B where B: MatchesShape<T0, M> {
    type Shape = T0;
}

impl<B, T0, T1, T2, T3, T4, T5, T6, M> SpawnsAs<(T0, T1, T2, T3, T4, T5, T6), There<M>> for B where B: SpawnsAs<(T1, T2, T3, T4, T5, T6), M> {
    type Shape = <B as SpawnsAs<(T1, T2, T3, T4, T5, T6), M>>::Shape;
}

impl<B, T0, T1, T2, T3, T4, T5, T6, T7, M> SpawnsAs<(T0, T1, T2, T3, T4, T5, T6, T7), Here<M>> for B where B: MatchesShape<T0, M> {
    type Shape = T0;
}

impl<B, T0, T1, T2, T3, T4, T5, T6, T7, M> SpawnsAs<(T0, T1, T2, T3, T4, T5, T6, T7), There<M>> for B where B: SpawnsAs<(T1, T2, T3, T4, T5, T6, T7), M> {
    type Shape = <B as SpawnsAs<(T1, T2, T3, T4, T5, T6, T7), M>>::Shape;
}

impl<B> SpawnsAs<Anything, WildcardMatch> for B {
    type Shape = Untyped;
}

/// Component `Self` may be written incrementally through a facet handle: only
/// the shape's `Option<T>` parts qualify. The untyped handle imposes no bound.
pub trait IncrementOf<H, M> {

}

impl<C: ComponentType> IncrementOf<Untyped, ExactMatch> for C {

}

impl<C: ComponentType> IncrementOf<Option<C>, Optionally<ExactMatch>> for C {

}

impl<C, T0, M> IncrementOf<(T0,), Here<M>> for C where C: IncrementOf<T0, M> {

}

impl<C, T0, T1, M> IncrementOf<(T0, T1), Here<M>> for C where C: IncrementOf<T0, M> {

}

impl<C, T0, T1, M> IncrementOf<(T0, T1), There<M>> for C where C: IncrementOf<(T1,), M> {

}

impl<C, T0, T1, T2, M> IncrementOf<(T0, T1, T2), Here<M>> for C where C: IncrementOf<T0, M> {

}

impl<C, T0, T1, T2, M> IncrementOf<(T0, T1, T2), There<M>> for C where C: IncrementOf<(T1, T2), M> {

}

impl<C, T0, T1, T2, T3, M> IncrementOf<(T0, T1, T2, T3), Here<M>> for C where C: IncrementOf<T0, M> {

}

impl<C, T0, T1, T2, T3, M> IncrementOf<(T0, T1, T2, T3), There<M>> for C where C: IncrementOf<(T1, T2, T3), M> {

}

impl<C, T0, T1, T2, T3, T4, M> IncrementOf<(T0, T1, T2, T3, T4), Here<M>> for C where C: IncrementOf<T0, M> {

}

impl<C, T0, T1, T2, T3, T4, M> IncrementOf<(T0, T1, T2, T3, T4), There<M>> for C where C: IncrementOf<(T1, T2, T3, T4), M> {

}

impl<C, T0, T1, T2, T3, T4, T5, M> IncrementOf<(T0, T1, T2, T3, T4, T5), Here<M>> for C where C: IncrementOf<T0, M> {

}

impl<C, T0, T1, T2, T3, T4, T5, M> IncrementOf<(T0, T1, T2, T3, T4, T5), There<M>> for C where C: IncrementOf<(T1, T2, T3, T4, T5), M> {

}

impl<C, T0, T1, T2, T3, T4, T5, T6, M> IncrementOf<(T0, T1, T2, T3, T4, T5, T6), Here<M>> for C where C: IncrementOf<T0, M> {

}

impl<C, T0, T1, T2, T3, T4, T5, T6, M> IncrementOf<(T0, T1, T2, T3, T4, T5, T6), There<M>> for C where C: IncrementOf<(T1, T2, T3, T4, T5, T6), M> {

}

impl<C, T0, T1, T2, T3, T4, T5, T6, T7, M> IncrementOf<(T0, T1, T2, T3, T4, T5, T6, T7), Here<M>> for C where C: IncrementOf<T0, M> {

}

impl<C, T0, T1, T2, T3, T4, T5, T6, T7, M> IncrementOf<(T0, T1, T2, T3, T4, T5, T6, T7), There<M>> for C where C: IncrementOf<(T1, T2, T3, T4, T5, T6, T7), M> {

}

/// One part of a facet, as seen at runtime.
#[derive(Debug, Clone, Copy)]
pub struct FacetPart {
    pub type_id: ComponentId,
    pub name: &'static str,
    pub optional: bool,
    /// Whether the component participates in revision tracking.
    pub is_tracked: bool,
}

/// What a [`FacetPart`] says.
#[verifier::ext_equal]
pub struct PartModel {
    pub type_id: ComponentId,
    pub name: Seq<char>,
    pub optional: bool,
    pub is_tracked: bool,
}

impl View for FacetPart {
    type V = PartModel;

    open spec fn view(&self) -> PartModel {
        PartModel {
            type_id: self.type_id,
            name: self.name@,
            optional: self.optional,
            is_tracked: self.is_tracked,
        }
    }
}

/// The parts of a facet.
pub open spec fn parts_view(parts: Seq<FacetPart>) -> Seq<PartModel> {
    parts.map_values(|part: FacetPart| part@)
}

/// A shape element contributing its runtime description to a facet.
pub trait ShapePart {
    /// The description.
    spec fn described() -> PartModel;

    /// The description.
    fn part() -> (part: FacetPart)
        ensures
            part@ == Self::described(),
    ;
}

impl<C: ComponentType> ShapePart for C {
    open spec fn described() -> PartModel {
        PartModel {
            type_id: C::key(),
            name: C::Universe::label(C::key()),
            optional: false,
            is_tracked: C::Universe::tracks(C::key()),
        }
    }

    fn part() -> (part: FacetPart) {
        FacetPart {
            type_id: C::component_type(),
            name: C::Universe::component_name(C::component_type()),
            optional: false,
            is_tracked: C::Universe::is_tracked(C::component_type()),
        }
    }
}

impl<T: ComponentType> ShapePart for Option<T> {
    open spec fn described() -> PartModel {
        PartModel {
            type_id: T::key(),
            name: T::Universe::label(T::key()),
            optional: true,
            is_tracked: T::Universe::tracks(T::key()),
        }
    }

    fn part() -> (part: FacetPart) {
        FacetPart {
            type_id: T::component_type(),
            name: T::Universe::component_name(T::component_type()),
            optional: true,
            is_tracked: T::Universe::is_tracked(T::component_type()),
        }
    }
}

/// A facet usable on an entity handle: the untyped handle, or a shape tuple
/// whose required parts drive row matching.
pub trait FacetKind {
    /// The facet's parts.
    spec fn described() -> Seq<PartModel>;

    /// The facet's parts.
    fn parts() -> (parts: Vec<FacetPart>)
        ensures
            parts_view(parts@) == Self::described(),
    ;
}

impl FacetKind for Untyped {
    open spec fn described() -> Seq<PartModel> {
        Seq::empty()
    }

    fn parts() -> (parts: Vec<FacetPart>) {
        let parts: Vec<FacetPart> = Vec::new();
        assert(parts_view(parts@) =~= Seq::<PartModel>::empty());
        parts
    }
}

impl<P0: ShapePart> FacetKind for (P0,) {
    open spec fn described() -> Seq<PartModel> {
        seq![P0::described()]
    }

    fn parts() -> (parts: Vec<FacetPart>) {
        let mut parts: Vec<FacetPart> = Vec::new();
        parts.push(P0::part());
        assert(parts_view(parts@) =~= Self::described());
        parts
    }
}

impl<P0: ShapePart, P1: ShapePart> FacetKind for (P0, P1) {
    open spec fn described() -> Seq<PartModel> {
        seq![P0::described(), P1::described()]
    }

    fn parts() -> (parts: Vec<FacetPart>) {
        let mut parts: Vec<FacetPart> = Vec::new();
        parts.push(P0::part());
        parts.push(P1::part());
        assert(parts_view(parts@) =~= Self::described());
        parts
    }
}

impl<P0: ShapePart, P1: ShapePart, P2: ShapePart> FacetKind for (P0, P1, P2) {
    open spec fn described() -> Seq<PartModel> {
        seq![P0::described(), P1::described(), P2::described()]
    }

    fn parts() -> (parts: Vec<FacetPart>) {
        let mut parts: Vec<FacetPart> = Vec::new();
        parts.push(P0::part());
        parts.push(P1::part());
        parts.push(P2::part());
        assert(parts_view(parts@) =~= Self::described());
        parts
    }
}

impl<P0: ShapePart, P1: ShapePart, P2: ShapePart, P3: ShapePart> FacetKind for (P0, P1, P2, P3) {
    open spec fn described() -> Seq<PartModel> {
        seq![P0::described(), P1::described(), P2::described(), P3::described()]
    }

    fn parts() -> (parts: Vec<FacetPart>) {
        let mut parts: Vec<FacetPart> = Vec::new();
        parts.push(P0::part());
        parts.push(P1::part());
        parts.push(P2::part());
        parts.push(P3::part());
        assert(parts_view(parts@) =~= Self::described());
        parts
    }
}

impl<P0: ShapePart, P1: ShapePart, P2: ShapePart, P3: ShapePart, P4: ShapePart> FacetKind for (P0, P1, P2, P3, P4) {
    open spec fn described() -> Seq<PartModel> {
        seq![P0::described(), P1::described(), P2::described(), P3::described(), P4::described()]
    }

    fn parts() -> (parts: Vec<FacetPart>) {
        let mut parts: Vec<FacetPart> = Vec::new();
        parts.push(P0::part());
        parts.push(P1::part());
        parts.push(P2::part());
        parts.push(P3::part());
        parts.push(P4::part());
        assert(parts_view(parts@) =~= Self::described());
        parts
    }
}

impl<P0: ShapePart, P1: ShapePart, P2: ShapePart, P3: ShapePart, P4: ShapePart, P5: ShapePart> FacetKind for (P0, P1, P2, P3, P4, P5) {
    open spec fn described() -> Seq<PartModel> {
        seq![P0::described(), P1::described(), P2::described(), P3::described(), P4::described(), P5::described()]
    }

    fn parts() -> (parts: Vec<FacetPart>) {
        let mut parts: Vec<FacetPart> = Vec::new();
        parts.push(P0::part());
        parts.push(P1::part());
        parts.push(P2::part());
        parts.push(P3::part());
        parts.push(P4::part());
        parts.push(P5::part());
        assert(parts_view(parts@) =~= Self::described());
        parts
    }
}

impl<P0: ShapePart, P1: ShapePart, P2: ShapePart, P3: ShapePart, P4: ShapePart, P5: ShapePart, P6: ShapePart> FacetKind for (P0, P1, P2, P3, P4, P5, P6) {
    open spec fn described() -> Seq<PartModel> {
        seq![P0::described(), P1::described(), P2::described(), P3::described(), P4::described(), P5::described(), P6::described()]
    }

    fn parts() -> (parts: Vec<FacetPart>) {
        let mut parts: Vec<FacetPart> = Vec::new();
        parts.push(P0::part());
        parts.push(P1::part());
        parts.push(P2::part());
        parts.push(P3::part());
        parts.push(P4::part());
        parts.push(P5::part());
        parts.push(P6::part());
        assert(parts_view(parts@) =~= Self::described());
        parts
    }
}

impl<P0: ShapePart, P1: ShapePart, P2: ShapePart, P3: ShapePart, P4: ShapePart, P5: ShapePart, P6: ShapePart, P7: ShapePart> FacetKind for (P0, P1, P2, P3, P4, P5, P6, P7) {
    open spec fn described() -> Seq<PartModel> {
        seq![P0::described(), P1::described(), P2::described(), P3::described(), P4::described(), P5::described(), P6::described(), P7::described()]
    }

    fn parts() -> (parts: Vec<FacetPart>) {
        let mut parts: Vec<FacetPart> = Vec::new();
        parts.push(P0::part());
        parts.push(P1::part());
        parts.push(P2::part());
        parts.push(P3::part());
        parts.push(P4::part());
        parts.push(P5::part());
        parts.push(P6::part());
        parts.push(P7::part());
        assert(parts_view(parts@) =~= Self::described());
        parts
    }
}

/// Runtime enumeration of a declaration: the component types it covers, or
/// `None` for the wildcard.
pub trait DeclarationList {
    /// The declared component types.
    spec fn declaration() -> Option<Seq<ComponentId>>;

    /// The declared component types.
    fn declared_types() -> (types: Option<Vec<ComponentId>>)
        ensures
            match types {
                Some(types) => Self::declaration() == Some(types@),
                None => Self::declaration() is None,
            },
    ;
}

impl DeclarationList for Anything {
    open spec fn declaration() -> Option<Seq<ComponentId>> {
        None
    }

    fn declared_types() -> (types: Option<Vec<ComponentId>>) {
        None
    }
}

impl DeclarationList for () {
    open spec fn declaration() -> Option<Seq<ComponentId>> {
        Some(Seq::empty())
    }

    fn declared_types() -> (types: Option<Vec<ComponentId>>) {
        Some(Vec::new())
    }
}

impl<C: ComponentType> DeclarationList for C {
    open spec fn declaration() -> Option<Seq<ComponentId>> {
        Some(seq![C::key()])
    }

    fn declared_types() -> (types: Option<Vec<ComponentId>>) {
        let mut types: Vec<ComponentId> = Vec::new();
        types.push(C::component_type());
        assert(types@ =~= seq![C::key()]);
        Some(types)
    }
}

impl<T: DeclarationList> DeclarationList for Option<T> {
    open spec fn declaration() -> Option<Seq<ComponentId>> {
        T::declaration()
    }

    fn declared_types() -> (types: Option<Vec<ComponentId>>) {
        T::declared_types()
    }
}

/// Two declarations together; a wildcard on either side is a wildcard.
pub open spec fn joined(a: Option<Seq<ComponentId>>, b: Option<Seq<ComponentId>>) -> Option<
    Seq<ComponentId>,
> {
    match (a, b) {
        (Some(a), Some(b)) => Some(a + b),
        _ => None,
    }
}

/// What an optional list of component types lists.
pub open spec fn types_view(types: Option<Vec<ComponentId>>) -> Option<Seq<ComponentId>> {
    match types {
        Some(types) => Some(types@),
        None => None,
    }
}

/// Merges two declarations; a wildcard on either side makes the whole a
/// wildcard.
pub fn merge_declarations(inner: Option<Vec<ComponentId>>, hook: Option<Vec<ComponentId>>) -> (merged:
    Option<Vec<ComponentId>>)
    ensures
        types_view(merged) == joined(types_view(inner), types_view(hook)),
{
    match (inner, hook) {
        (Some(mut inner), Some(mut hook)) => {
            inner.append(&mut hook);
            Some(inner)
        },
        _ => None,
    }
}

impl<T0: DeclarationList> DeclarationList for (T0,) {
    open spec fn declaration() -> Option<Seq<ComponentId>> {
        T0::declaration()
    }

    fn declared_types() -> (types: Option<Vec<ComponentId>>) {
        let types = T0::declared_types();
        types
    }
}

impl<T0: DeclarationList, T1: DeclarationList> DeclarationList for (T0, T1) {
    open spec fn declaration() -> Option<Seq<ComponentId>> {
        joined(T0::declaration(), T1::declaration())
    }

    fn declared_types() -> (types: Option<Vec<ComponentId>>) {
        let types = T0::declared_types();
        let types = merge_declarations(types, T1::declared_types());
        types
    }
}

impl<T0: DeclarationList, T1: DeclarationList, T2: DeclarationList> DeclarationList for (T0, T1, T2) {
    open spec fn declaration() -> Option<Seq<ComponentId>> {
        joined(joined(T0::declaration(), T1::declaration()), T2::declaration())
    }

    fn declared_types() -> (types: Option<Vec<ComponentId>>) {
        let types = T0::declared_types();
        let types = merge_declarations(types, T1::declared_types());
        let types = merge_declarations(types, T2::declared_types());
        types
    }
}

impl<T0: DeclarationList, T1: DeclarationList, T2: DeclarationList, T3: DeclarationList> DeclarationList for (T0, T1, T2, T3) {
    open spec fn declaration() -> Option<Seq<ComponentId>> {
        joined(joined(joined(T0::declaration(), T1::declaration()), T2::declaration()), T3::declaration())
    }

    fn declared_types() -> (types: Option<Vec<ComponentId>>) {
        let types = T0::declared_types();
        let types = merge_declarations(types, T1::declared_types());
        let types = merge_declarations(types, T2::declared_types());
        let types = merge_declarations(types, T3::declared_types());
        types
    }
}

impl<T0: DeclarationList, T1: DeclarationList, T2: DeclarationList, T3: DeclarationList, T4: DeclarationList> DeclarationList for (T0, T1, T2, T3, T4) {
    open spec fn declaration() -> Option<Seq<ComponentId>> {
        joined(joined(joined(joined(T0::declaration(), T1::declaration()), T2::declaration()), T3::declaration()), T4::declaration())
    }

    fn declared_types() -> (types: Option<Vec<ComponentId>>) {
        let types = T0::declared_types();
        let types = merge_declarations(types, T1::declared_types());
        let types = merge_declarations(types, T2::declared_types());
        let types = merge_declarations(types, T3::declared_types());
        let types = merge_declarations(types, T4::declared_types());
        types
    }
}

impl<T0: DeclarationList, T1: DeclarationList, T2: DeclarationList, T3: DeclarationList, T4: DeclarationList, T5: DeclarationList> DeclarationList for (T0, T1, T2, T3, T4, T5) {
    open spec fn declaration() -> Option<Seq<ComponentId>> {
        joined(joined(joined(joined(joined(T0::declaration(), T1::declaration()), T2::declaration()), T3::declaration()), T4::declaration()), T5::declaration())
    }

    fn declared_types() -> (types: Option<Vec<ComponentId>>) {
        let types = T0::declared_types();
        let types = merge_declarations(types, T1::declared_types());
        let types = merge_declarations(types, T2::declared_types());
        let types = merge_declarations(types, T3::declared_types());
        let types = merge_declarations(types, T4::declared_types());
        let types = merge_declarations(types, T5::declared_types());
        types
    }
}

impl<T0: DeclarationList, T1: DeclarationList, T2: DeclarationList, T3: DeclarationList, T4: DeclarationList, T5: DeclarationList, T6: DeclarationList> DeclarationList for (T0, T1, T2, T3, T4, T5, T6) {
    open spec fn declaration() -> Option<Seq<ComponentId>> {
        joined(joined(joined(joined(joined(joined(T0::declaration(), T1::declaration()), T2::declaration()), T3::declaration()), T4::declaration()), T5::declaration()), T6::declaration())
    }

    fn declared_types() -> (types: Option<Vec<ComponentId>>) {
        let types = T0::declared_types();
        let types = merge_declarations(types, T1::declared_types());
        let types = merge_declarations(types, T2::declared_types());
        let types = merge_declarations(types, T3::declared_types());
        let types = merge_declarations(types, T4::declared_types());
        let types = merge_declarations(types, T5::declared_types());
        let types = merge_declarations(types, T6::declared_types());
        types
    }
}

impl<T0: DeclarationList, T1: DeclarationList, T2: DeclarationList, T3: DeclarationList, T4: DeclarationList, T5: DeclarationList, T6: DeclarationList, T7: DeclarationList> DeclarationList for (T0, T1, T2, T3, T4, T5, T6, T7) {
    open spec fn declaration() -> Option<Seq<ComponentId>> {
        joined(joined(joined(joined(joined(joined(joined(T0::declaration(), T1::declaration()), T2::declaration()), T3::declaration()), T4::declaration()), T5::declaration()), T6::declaration()), T7::declaration())
    }

    fn declared_types() -> (types: Option<Vec<ComponentId>>) {
        let types = T0::declared_types();
        let types = merge_declarations(types, T1::declared_types());
        let types = merge_declarations(types, T2::declared_types());
        let types = merge_declarations(types, T3::declared_types());
        let types = merge_declarations(types, T4::declared_types());
        let types = merge_declarations(types, T5::declared_types());
        let types = merge_declarations(types, T6::declared_types());
        let types = merge_declarations(types, T7::declared_types());
        types
    }
}

/// A bowl-level entity schema: the entity shapes that derived writes are allowed
/// to produce.
pub trait Schema {
    /// The shapes.
    fn shapes() -> Vec<ShapeDesc>;
}

/// One component of a shape, with its name.
#[derive(Debug, Clone, Copy)]
pub struct ShapePartDesc {
    pub component: ComponentId,
    pub name: &'static str,
}

/// One named entity shape: the components an entity of this kind carries.
#[derive(Debug)]
pub struct ShapeDesc {
    pub name: &'static str,
    pub required: Vec<ShapePartDesc>,
    pub optional: Vec<ShapePartDesc>,
}

/// The component types of a list of shape parts.
pub open spec fn shape_kinds(parts: Seq<ShapePartDesc>) -> Seq<ComponentId> {
    parts.map_values(|part: ShapePartDesc| part.component)
}

impl ShapeDesc {
    /// Whether a component type is part of this shape at all.
    pub open spec fn holds(&self, kind: ComponentId) -> bool {
        shape_kinds(self.required@).contains(kind) || shape_kinds(self.optional@).contains(kind)
    }

    /// Whether a component type is part of this shape at all.
    pub fn contains(&self, kind: ComponentId) -> (contained: bool)
        ensures
            contained == self.holds(kind),
    {
        lists_kind(&self.required, kind) || lists_kind(&self.optional, kind)
    }
}

fn lists_kind(parts: &Vec<ShapePartDesc>, kind: ComponentId) -> (found: bool)
    ensures
        found == shape_kinds(parts@).contains(kind),
{
    let mut i: usize = 0;
    while i < parts.len()
        invariant
            i <= parts@.len(),
            forall|j: int| 0 <= j < i ==> shape_kinds(parts@)[j] != kind,
        decreases parts@.len() - i,
    {
        if parts[i].component == kind {
            assert(shape_kinds(parts@)[i as int] == kind);
            return true;
        }
        i = i + 1;
    }
    false
}

} // verus!
