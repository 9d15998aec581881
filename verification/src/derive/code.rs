//! The generated impls.

use vstd::prelude::*;
use vstd::string::StringExecFns;

use crate::derive::attributes::{
    attribute_value, attributes_of, component_attribute_contains, declared_name, first_keyed,
    has_component_option, name_of_type,
};
use crate::derive::bundle::{bundle_of, optional_text, parse_bundle, Bundle, BundleModel};
use crate::derive::template::{fill, filled, texts};
use crate::derive::tokens::{tokens_view, Token, TokenModel};
use crate::text::{decimal, decimal_text};

verus! {

/// An error that the compiler is to report: `$0` is its message.
pub const COMPILE_ERROR: &'static str = "compile_error!(\"$0\");";

/// An untracked component.
pub const UNTRACKED: &'static str = "fn tracked() -> bool { false }";

/// The revision field as the fingerprint.
pub const REVISION_FINGERPRINT: &'static str =
    "fn fingerprint(&self) -> ::core::option::Option<u64> {
        ::core::option::Option::Some(self.revision)
    }";

/// A hash of the whole value as the fingerprint.
pub const HASH_FINGERPRINT: &'static str = "fn fingerprint(&self) -> ::core::option::Option<u64> {
        ::core::option::Option::Some(::bowl::hash_component(self))
    }";

/// A hash of the member list as the fingerprint.
pub const MEMBERS_FINGERPRINT: &'static str =
    "fn fingerprint(&self) -> ::core::option::Option<u64> {
        ::core::option::Option::Some(::bowl::hash_component(&self.0))
    }";

/// The edge of a relationship: `$0` is the type that is kept on its target.
pub const EDGE: &'static str =
    "fn relationship_edge(&self) -> ::core::option::Option<::bowl::RelationshipEdge> {
        ::core::option::Option::Some(::bowl::RelationshipEdge::new::<$0>(self.0))
    }";

/// The member list of a maintained inverse.
pub const MEMBERS: &'static str =
    "fn relationship_retractions(&self) -> ::std::vec::Vec<::bowl::RelationshipRetraction> {
        ::bowl::relationship_retractions_for(self)
    }

    fn relationship_members(&self) -> ::core::option::Option<::std::vec::Vec<::bowl::Entity>> {
        ::core::option::Option::Some(self.0.clone())
    }";

/// A maintained inverse: `$0` is its name, `$1` the edge type.
pub const TARGET_IMPL: &'static str = "impl ::bowl::RelationshipTarget for $0 {
    type Edge = $1;

    fn from_members(members: ::std::vec::Vec<::bowl::Entity>) -> Self {
        $0(members)
    }

    fn members(&self) -> &[::bowl::Entity] {
        &self.0
    }
}";

/// A component: `$0` is its name, `$1` to `$4` are its methods, and `$5` is the
/// impl of a maintained inverse.
pub const COMPONENT_IMPL: &'static str = "impl ::bowl::Component for $0 {
    $1
    $2
    $3
    $4
}
$5";

/// Where a component's fingerprint comes from.
#[derive(Clone, Copy, Debug, PartialEq, Eq, Structural)]
pub enum Fingerprint {
    /// It has none.
    Absent,
    /// The `revision` field.
    Revision,
    /// A hash of the whole value.
    Hash,
    /// A hash of the member list.
    Members,
}

/// Why no component can be derived.
#[derive(Clone, Copy, Debug, PartialEq, Eq, Structural)]
pub enum ComponentError {
    /// The declaration is neither a struct nor an enum.
    NotAType,
    /// Both a hash and a revision are asked for.
    TwoFingerprints,
    /// A maintained inverse asks for a hash or a revision.
    RedundantFingerprint,
    /// Both an edge and a maintained inverse.
    EdgeAndTarget,
}

/// What is derived for a component.
pub struct ComponentPlan {
    /// The type's name.
    pub name: String,
    /// Whether changes of it go unnoticed.
    pub untracked: bool,
    /// Where its fingerprint comes from.
    pub fingerprint: Fingerprint,
    /// The type that is kept on the target of this edge.
    pub edge_target: Option<String>,
    /// The edge type that this type is the inverse of.
    pub target_edge: Option<String>,
}

/// What a plan is.
pub struct ComponentPlanModel {
    pub name: Seq<char>,
    pub untracked: bool,
    pub fingerprint: Fingerprint,
    pub edge_target: Option<Seq<char>>,
    pub target_edge: Option<Seq<char>>,
}

impl View for ComponentPlan {
    type V = ComponentPlanModel;

    open spec fn view(&self) -> ComponentPlanModel {
        ComponentPlanModel {
            name: self.name@,
            untracked: self.untracked,
            fingerprint: self.fingerprint,
            edge_target: optional_text(self.edge_target),
            target_edge: optional_text(self.target_edge),
        }
    }
}

impl ComponentError {
    /// The message that stands for an error.
    pub open spec fn wording(self) -> Seq<char> {
        match self {
            ComponentError::NotAType => "Component can only be derived for structs and enums"@,
            ComponentError::TwoFingerprints =>
                "#[component(hash)] and #[component(revision)] are mutually exclusive"@,
            ComponentError::RedundantFingerprint =>
                "#[relationship_target] generates its fingerprint from the member list; #[component(hash)]/#[component(revision)] are redundant and rejected"@,
            ComponentError::EdgeAndTarget =>
                "a component cannot be both a #[relationship] edge and a #[relationship_target]"@,
        }
    }

    /// The message that stands for an error.
    pub fn message(self) -> (text: &'static str)
        ensures
            text@ == self.wording(),
    {
        match self {
            ComponentError::NotAType => "Component can only be derived for structs and enums",
            ComponentError::TwoFingerprints =>
                "#[component(hash)] and #[component(revision)] are mutually exclusive",
            ComponentError::RedundantFingerprint =>
                "#[relationship_target] generates its fingerprint from the member list; #[component(hash)]/#[component(revision)] are redundant and rejected",
            ComponentError::EdgeAndTarget =>
                "a component cannot be both a #[relationship] edge and a #[relationship_target]",
        }
    }
}

/// What is derived for a declaration: the attributes `#[component(hash)]`,
/// `#[component(revision)]`, `#[component(untracked)]`,
/// `#[relationship(target = ..)]` and `#[relationship_target(relationship = ..)]`
/// decide.
pub open spec fn component_plan(tokens: Seq<TokenModel>) -> Result<
    ComponentPlanModel,
    ComponentError,
> {
    let hash = has_component_option(tokens, "hash"@);
    let revision = has_component_option(tokens, "revision"@);
    let edge_target = first_keyed(attributes_of(tokens), "relationship"@, "target"@);
    let target_edge = first_keyed(attributes_of(tokens), "relationship_target"@, "relationship"@);
    match declared_name(tokens, false) {
        None => Err(ComponentError::NotAType),
        Some(name) => if revision && hash {
            Err(ComponentError::TwoFingerprints)
        } else if target_edge is Some && (hash || revision) {
            Err(ComponentError::RedundantFingerprint)
        } else if edge_target is Some && target_edge is Some {
            Err(ComponentError::EdgeAndTarget)
        } else {
            Ok(
                ComponentPlanModel {
                    name,
                    untracked: has_component_option(tokens, "untracked"@),
                    fingerprint: if revision {
                        Fingerprint::Revision
                    } else if hash {
                        Fingerprint::Hash
                    } else if target_edge is Some {
                        Fingerprint::Members
                    } else {
                        Fingerprint::Absent
                    },
                    edge_target,
                    target_edge,
                },
            )
        },
    }
}

/// Decides what is derived for a declaration.
pub fn plan_component(tokens: &Vec<Token>) -> (plan: Result<ComponentPlan, ComponentError>)
    ensures
        match plan {
            Ok(plan) => component_plan(tokens_view(tokens@)) == Ok::<
                ComponentPlanModel,
                ComponentError,
            >(plan@),
            Err(error) => component_plan(tokens_view(tokens@)) == Err::<
                ComponentPlanModel,
                ComponentError,
            >(error),
        },
{
    let hash = component_attribute_contains(tokens, "hash");
    let untracked = component_attribute_contains(tokens, "untracked");
    let revision = component_attribute_contains(tokens, "revision");
    let edge_target = attribute_value(tokens, "relationship", "target");
    let target_edge = attribute_value(tokens, "relationship_target", "relationship");
    let name = match name_of_type(tokens) {
        Some(name) => name,
        None => {
            return Err(ComponentError::NotAType);
        },
    };
    if revision && hash {
        return Err(ComponentError::TwoFingerprints);
    }
    if target_edge.is_some() && (hash || revision) {
        return Err(ComponentError::RedundantFingerprint);
    }
    if edge_target.is_some() && target_edge.is_some() {
        return Err(ComponentError::EdgeAndTarget);
    }
    let fingerprint = if revision {
        Fingerprint::Revision
    } else if hash {
        Fingerprint::Hash
    } else if target_edge.is_some() {
        Fingerprint::Members
    } else {
        Fingerprint::Absent
    };
    Ok(ComponentPlan { name, untracked, fingerprint, edge_target, target_edge })
}

impl Fingerprint {
    /// The method that gives the fingerprint.
    pub open spec fn code(self) -> Seq<char> {
        match self {
            Fingerprint::Absent => ""@,
            Fingerprint::Revision => REVISION_FINGERPRINT@,
            Fingerprint::Hash => HASH_FINGERPRINT@,
            Fingerprint::Members => MEMBERS_FINGERPRINT@,
        }
    }

    fn write(self) -> (text: &'static str)
        ensures
            text@ == self.code(),
    {
        match self {
            Fingerprint::Absent => "",
            Fingerprint::Revision => REVISION_FINGERPRINT,
            Fingerprint::Hash => HASH_FINGERPRINT,
            Fingerprint::Members => MEMBERS_FINGERPRINT,
        }
    }
}

impl ComponentPlanModel {
    /// The name, the methods and the impl of a maintained inverse.
    pub open spec fn pieces(self) -> Seq<Seq<char>> {
        seq![
            self.name,
            if self.untracked {
                UNTRACKED@
            } else {
                ""@
            },
            self.fingerprint.code(),
            match self.edge_target {
                Some(target) => filled(EDGE@, seq![target]),
                None => ""@,
            },
            if self.target_edge is Some {
                MEMBERS@
            } else {
                ""@
            },
            match self.target_edge {
                Some(edge) => filled(TARGET_IMPL@, seq![self.name, edge]),
                None => ""@,
            },
        ]
    }

    /// The impls of a component.
    pub open spec fn code(self) -> Seq<char> {
        filled(COMPONENT_IMPL@, self.pieces())
    }
}

impl ComponentPlan {
    /// Writes the impls of a component.
    pub fn write(&self) -> (text: String)
        ensures
            text@ == self@.code(),
    {
        let untracked = if self.untracked {
            UNTRACKED.to_owned()
        } else {
            "".to_owned()
        };
        let fingerprint = self.fingerprint.write().to_owned();
        let edge = match &self.edge_target {
            Some(target) => {
                let args = vec![target];
                assert(texts(args@) =~= seq![target@]);
                fill(EDGE, &args)
            },
            None => "".to_owned(),
        };
        let members = if self.target_edge.is_some() {
            MEMBERS.to_owned()
        } else {
            "".to_owned()
        };
        let target = match &self.target_edge {
            Some(found) => {
                let args = vec![&self.name, found];
                assert(texts(args@) =~= seq![self.name@, found@]);
                fill(TARGET_IMPL, &args)
            },
            None => "".to_owned(),
        };
        let args = vec![&self.name, &untracked, &fingerprint, &edge, &members, &target];
        assert(texts(args@) =~= self@.pieces());
        fill(COMPONENT_IMPL, &args)
    }
}

/// The code of an error.
pub open spec fn error_code(message: Seq<char>) -> Seq<char> {
    filled(COMPILE_ERROR@, seq![message])
}

/// Writes the code of an error. The messages of this module hold neither quotes
/// nor backslashes.
pub fn write_error(message: &str) -> (text: String)
    ensures
        text@ == error_code(message@),
{
    let message_text = message.to_owned();
    let args = vec![&message_text];
    assert(texts(args@) =~= seq![message@]);
    fill(COMPILE_ERROR, &args)
}

/// The code that a component declaration expands to.
pub open spec fn component_code(tokens: Seq<TokenModel>) -> Seq<char> {
    match component_plan(tokens) {
        Ok(plan) => plan.code(),
        Err(error) => error_code(error.wording()),
    }
}

/// Derives `Component` for a struct or an enum.
pub fn derive_component(tokens: &Vec<Token>) -> (text: String)
    ensures
        text@ == component_code(tokens_view(tokens@)),
{
    match plan_component(tokens) {
        Ok(plan) => plan.write(),
        Err(error) => write_error(error.message()),
    }
}

/// One part of a bundle's state: `$2` is the field's type.
pub const STATE_TYPE: &'static str = "<$2 as ::bowl::__derive::SystemParam>::State,";

/// The one state of a field: `$0` is its number, `$1` its name, `$2` its type.
pub const FIELD_STATE: &'static str =
    "let __f$0 = <$2 as ::bowl::__derive::SystemParam>::states(snapshot);
if __f$0.len() != 1 {
    panic!(concat!(
        \"SystemParam bundles only compose ambient params \",
        \"(View, Commands, nested bundles); field `$1` has a \",
        \"row state set - drive rows with a top-level Query instead\"
    ));
}
let __f$0 = __f$0.into_iter().next().expect(\"length checked above\");
";

/// A field's state in the state of the bundle.
pub const STATE_NAME: &'static str = "__f$0,";

/// A field's keys.
pub const FIELD_KEYS: &'static str =
    "out.extend(<$2 as ::bowl::__derive::SystemParam>::keys(&state.$0));";

/// A field's dependencies.
pub const FIELD_DEPS: &'static str =
    "out.extend(<$2 as ::bowl::__derive::SystemParam>::deps(snapshot, &state.$0));";

/// A field's access.
pub const FIELD_ACCESS: &'static str =
    "out.extend(<$2 as ::bowl::__derive::SystemParam>::access(snapshot, &state.$0));";

/// A field's value: `$3` is its type for the time of one run.
pub const FIELD_FETCH: &'static str =
    "$1: <$3 as ::bowl::__derive::SystemParam>::fetch(bowl, snapshot, &state.$0, commands, guards),";

/// Whether a field makes its system run always.
pub const FIELD_ALWAYS_RUN: &'static str =
    " || <$2 as ::bowl::__derive::SystemParam>::always_run()";

/// A field's own validation.
pub const FIELD_VALIDATE: &'static str =
    "<$2 as ::bowl::__derive::SystemParam>::validate_local()?;";

/// A field's views.
pub const FIELD_VIEWS: &'static str = "<$2 as ::bowl::__derive::SystemParam>::view_sets(out);";

/// A field's outputs.
pub const FIELD_OUTPUTS: &'static str =
    "match <$2 as ::bowl::__derive::SystemParam>::declared_outputs() {
    ::core::option::Option::Some(types) => out.extend(types),
    ::core::option::Option::None => return ::core::option::Option::None,
}";

/// The states of a bundle: `$0` reads the fields' states, `$1` lists them.
pub const STATES: &'static str =
    "fn states(snapshot: &::bowl::__derive::Snapshot) -> ::std::vec::Vec<Self::State> {
        $0
        ::std::vec![($1)]
    }";

/// The keys, the dependencies and the access of a bundle.
pub const ROWS: &'static str =
    "fn keys(state: &Self::State) -> ::std::vec::Vec<::bowl::__derive::Entity> {
        let mut out = ::std::vec::Vec::new();
        $0
        out
    }

    fn deps(
        snapshot: &::bowl::__derive::Snapshot,
        state: &Self::State,
    ) -> ::std::vec::Vec<::bowl::__derive::Dep> {
        let mut out = ::std::vec::Vec::new();
        $1
        out
    }

    fn access(
        snapshot: &::bowl::__derive::Snapshot,
        state: &Self::State,
    ) -> ::std::vec::Vec<::bowl::__derive::Access> {
        let mut out = ::std::vec::Vec::new();
        $2
        out
    }";

/// The value of a bundle: `$0` is its name, `$1` its fields.
pub const FETCH: &'static str = "fn fetch<'__item>(
        bowl: &::bowl::__derive::Bowl,
        snapshot: &'__item ::bowl::__derive::Snapshot,
        state: &Self::State,
        commands: &::bowl::__derive::Commands<::bowl::__derive::Anything>,
        guards: &mut ::bowl::__derive::GuardStore,
    ) -> Self::Item<'__item> {
        $0 {
            $1
        }
    }";

/// What the engine asks of a bundle's type: whether it runs always (`$0`), its
/// validation (`$1`), its views (`$2`) and its outputs (`$3`).
pub const DECLARATIONS: &'static str = "fn always_run() -> bool {
        false$0
    }

    fn validate_local() -> ::std::result::Result<(), ::std::string::String> {
        $1
        ::std::result::Result::Ok(())
    }

    fn view_sets(out: &mut ::std::vec::Vec<::std::vec::Vec<::std::any::TypeId>>) {
        $2
    }

    fn declared_outputs() -> ::core::option::Option<::std::vec::Vec<::std::any::TypeId>> {
        let mut out = ::std::vec::Vec::new();
        $3
        ::core::option::Option::Some(out)
    }";

/// A bundle: `$0` are its generics, `$1` is its type, `$2` its state, `$3` its
/// type for the time of one run, and `$4` to `$7` are its methods.
pub const PARAM_IMPL: &'static str = "impl$0 ::bowl::__derive::SystemParam for $1 {
    type State = ($2);
    type Item<'__item> = $3;

    $4

    $5

    $6

    $7
}";

/// A lifetime in angle brackets: `$0` stands before it, `$1` is its name.
pub const WITH_LIFETIME: &'static str = "$0<'$1>";

impl BundleModel {
    /// What a template for field `i` is filled with: its number, its name, its
    /// type with the `'static` lifetime and its type with the lifetime of a run.
    pub open spec fn field_args(self, i: int) -> Seq<Seq<char>> {
        seq![
            decimal(i as nat),
            self.fields[i].name,
            self.fields[i].type_text(self.lifetime, "static"@),
            self.fields[i].type_text(self.lifetime, "__item"@),
        ]
    }

    /// A template filled for each of the first `count` fields, one behind the
    /// other.
    pub open spec fn each(self, template: Seq<char>, count: nat) -> Seq<char>
        decreases count,
    {
        if count == 0 {
            Seq::empty()
        } else {
            self.each(template, (count - 1) as nat) + filled(template, self.field_args(count - 1))
        }
    }

    /// A template filled for each field.
    pub open spec fn all(self, template: Seq<char>) -> Seq<char> {
        self.each(template, self.fields.len())
    }

    /// The bundle's type, or the generics of its impl, with the lifetime `name`
    /// if the bundle has one.
    pub open spec fn with_lifetime(self, before: Seq<char>, name: Seq<char>) -> Seq<char> {
        match self.lifetime {
            Some(_) => filled(WITH_LIFETIME@, seq![before, name]),
            None => before,
        }
    }

    /// The parts of the impl of a bundle.
    pub open spec fn pieces(self) -> Seq<Seq<char>> {
        let own = match self.lifetime {
            Some(name) => name,
            None => ""@,
        };
        seq![
            self.with_lifetime(""@, own),
            self.with_lifetime(self.name, own),
            self.all(STATE_TYPE@),
            self.with_lifetime(self.name, "__item"@),
            filled(STATES@, seq![self.all(FIELD_STATE@), self.all(STATE_NAME@)]),
            filled(
                ROWS@,
                seq![self.all(FIELD_KEYS@), self.all(FIELD_DEPS@), self.all(FIELD_ACCESS@)],
            ),
            filled(FETCH@, seq![self.name, self.all(FIELD_FETCH@)]),
            filled(
                DECLARATIONS@,
                seq![
                    self.all(FIELD_ALWAYS_RUN@),
                    self.all(FIELD_VALIDATE@),
                    self.all(FIELD_VIEWS@),
                    self.all(FIELD_OUTPUTS@),
                ],
            ),
        ]
    }

    /// The impl of a bundle.
    pub open spec fn code(self) -> Seq<char> {
        filled(PARAM_IMPL@, self.pieces())
    }
}

impl Bundle {
    fn write_field(&self, template: &str, i: usize) -> (text: String)
        requires
            i < self.fields@.len(),
        ensures
            text@ == filled(template@, self@.field_args(i as int)),
    {
        let number = decimal_text(i as u64);
        let fixed = self.fields[i].ty_with_lifetime(&self.lifetime, "static");
        let item = self.fields[i].ty_with_lifetime(&self.lifetime, "__item");
        let args = vec![&number, &self.fields[i].name, &fixed, &item];
        assert(texts(args@) =~= self@.field_args(i as int));
        fill(template, &args)
    }

    fn write_all(&self, template: &str) -> (text: String)
        ensures
            text@ == self@.all(template@),
    {
        let mut text = String::new();
        let mut i: usize = 0;
        while i < self.fields.len()
            invariant
                i <= self.fields@.len(),
                text@ == self@.each(template@, i as nat),
            decreases self.fields@.len() - i,
        {
            text.append(self.write_field(template, i).as_str());
            i = i + 1;
        }
        text
    }

    fn write_with_lifetime(&self, before: &String, name: &String) -> (text: String)
        ensures
            text@ == self@.with_lifetime(before@, name@),
    {
        if self.lifetime.is_some() {
            let args = vec![before, name];
            assert(texts(args@) =~= seq![before@, name@]);
            fill(WITH_LIFETIME, &args)
        } else {
            before.clone()
        }
    }

    fn write_states(&self) -> (text: String)
        ensures
            text@ == self@.pieces()[4],
    {
        let states = self.write_all(FIELD_STATE);
        let names = self.write_all(STATE_NAME);
        let args = vec![&states, &names];
        assert(texts(args@) =~= seq![self@.all(FIELD_STATE@), self@.all(STATE_NAME@)]);
        fill(STATES, &args)
    }

    fn write_rows(&self) -> (text: String)
        ensures
            text@ == self@.pieces()[5],
    {
        let keys = self.write_all(FIELD_KEYS);
        let deps = self.write_all(FIELD_DEPS);
        let access = self.write_all(FIELD_ACCESS);
        let args = vec![&keys, &deps, &access];
        assert(texts(args@) =~= seq![
            self@.all(FIELD_KEYS@),
            self@.all(FIELD_DEPS@),
            self@.all(FIELD_ACCESS@),
        ]);
        fill(ROWS, &args)
    }

    fn write_fetch(&self) -> (text: String)
        ensures
            text@ == self@.pieces()[6],
    {
        let fields = self.write_all(FIELD_FETCH);
        let args = vec![&self.name, &fields];
        assert(texts(args@) =~= seq![self@.name, self@.all(FIELD_FETCH@)]);
        fill(FETCH, &args)
    }

    fn write_declarations(&self) -> (text: String)
        ensures
            text@ == self@.pieces()[7],
    {
        let always_run = self.write_all(FIELD_ALWAYS_RUN);
        let validate = self.write_all(FIELD_VALIDATE);
        let views = self.write_all(FIELD_VIEWS);
        let outputs = self.write_all(FIELD_OUTPUTS);
        let args = vec![&always_run, &validate, &views, &outputs];
        assert(texts(args@) =~= seq![
            self@.all(FIELD_ALWAYS_RUN@),
            self@.all(FIELD_VALIDATE@),
            self@.all(FIELD_VIEWS@),
            self@.all(FIELD_OUTPUTS@),
        ]);
        fill(DECLARATIONS, &args)
    }

    /// Writes the impl of a bundle.
    pub fn write(&self) -> (text: String)
        ensures
            text@ == self@.code(),
    {
        let nothing = "".to_owned();
        let item_name = "__item".to_owned();
        let own = match &self.lifetime {
            Some(name) => name.clone(),
            None => "".to_owned(),
        };
        let generics = self.write_with_lifetime(&nothing, &own);
        let self_type = self.write_with_lifetime(&self.name, &own);
        let state = self.write_all(STATE_TYPE);
        let item_type = self.write_with_lifetime(&self.name, &item_name);
        let states = self.write_states();
        let rows = self.write_rows();
        let fetch = self.write_fetch();
        let declarations = self.write_declarations();
        let args = vec![
            &generics, &self_type, &state, &item_type, &states, &rows, &fetch, &declarations,
        ];
        assert(texts(args@) =~= self@.pieces());
        fill(PARAM_IMPL, &args)
    }
}

/// The code that a bundle declaration expands to.
pub open spec fn system_param_code(tokens: Seq<TokenModel>) -> Seq<char> {
    match bundle_of(tokens) {
        Ok(bundle) => bundle.code(),
        Err(fault) => error_code(fault.wording()),
    }
}

/// Derives `SystemParam` for a struct of ambient system params: a param bundle.
/// Fields must be ambient params or other bundles; row-driving queries stay at the
/// top of a system's signature. A bundle has at most one lifetime parameter and no
/// type parameters.
pub fn derive_system_param(tokens: &Vec<Token>) -> (text: String)
    ensures
        text@ == system_param_code(tokens_view(tokens@)),
{
    match parse_bundle(tokens) {
        Ok(bundle) => bundle.write(),
        Err(error) => write_error(error.message().as_str()),
    }
}

} // verus!
