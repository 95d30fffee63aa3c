//! What is derived for a component: which fields are part of its name, and which become labels.
use crate::component::{
    extended, inner_components_extend_the_name, instance_text, label_key, label_map,
};
use crate::text::{decimal, decimal_injective, decimal_text, opt_text, texts};
use syn::Attribute as SynAttribute;
use vstd::prelude::*;

verus! {

/// An attribute of an item, as `syn` reads it.
#[verifier::external_type_specification]
#[verifier::external_body]
pub struct ExSynAttribute(SynAttribute);

/// Why `syn` could not read something.
#[verifier::external_type_specification]
#[verifier::external_body]
pub struct ExSynError(syn::Error);

/// The path of an attribute, where it is a single word.
pub uninterp spec fn attribute_word(attr: SynAttribute) -> Option<Seq<char>>;

/// What is inside the brackets of an attribute, or why that cannot be read.
pub uninterp spec fn attribute_args(attr: SynAttribute) -> Result<MetaView, syn::Error>;

/// `syn::Attribute::path` and `syn::Path::get_ident`: the path of an attribute, where it is a
/// single word.
#[verifier::external_body]
fn word_of(attr: &SynAttribute) -> (word: Option<String>)
    ensures
        opt_text(word) == attribute_word(*attr),
{
    attr.path().get_ident().map(|ident| ident.to_string())
}

/// `syn::Attribute::parse_args`, as a `syn::Meta`: what is inside the brackets of an attribute, of
/// which only a name and a value are told apart, or why that cannot be read. The path must not be
/// empty: `syn` shows its words where there are no brackets.
#[verifier::external_body]
fn args_of(attr: &SynAttribute) -> (args: Result<Meta, syn::Error>)
    requires
        attribute_word(*attr) is Some,
    ensures
        args_view(args) == attribute_args(*attr),
{
    attr.parse_args::<syn::Meta>().map(|meta| match meta {
        syn::Meta::NameValue(nv) => Meta::NameValue {
            path: nv.path.get_ident().map(|ident| ident.to_string()),
            text: match nv.value {
                syn::Expr::Lit(syn::ExprLit { lit: syn::Lit::Str(text), .. }) => Some(text.value()),
                _ => None,
            },
        },
        _ => Meta::Other,
    })
}

/// What is inside the brackets of an attribute.
#[derive(Debug)]
pub enum Meta {
    /// A name and a value. The path is there where it is a single word, the text where the value
    /// is a string literal.
    NameValue { path: Option<String>, text: Option<String> },
    /// Anything else.
    Other,
}

/// The value of what is inside the brackets of an attribute.
pub enum MetaView {
    NameValue { path: Option<Seq<char>>, text: Option<Seq<char>> },
    Other,
}

impl View for Meta {
    type V = MetaView;

    open spec fn view(&self) -> MetaView {
        match *self {
            Meta::NameValue { path, text } => MetaView::NameValue {
                path: opt_text(path),
                text: opt_text(text),
            },
            Meta::Other => MetaView::Other,
        }
    }
}

/// The value of what is inside the brackets of an attribute that may not be readable.
pub open spec fn args_view<X>(args: Result<Meta, X>) -> Result<MetaView, X> {
    match args {
        Ok(meta) => Ok(meta@),
        Err(error) => Err(error),
    }
}

/// An attribute of an item. The path is there where it is a single word; what is inside the
/// brackets may not be readable.
#[derive(Debug)]
pub struct Attribute<X> {
    pub path: Option<String>,
    pub args: Result<Meta, X>,
}

/// A generic parameter of an item.
#[derive(Debug)]
pub enum GenericParam {
    /// A type parameter with its bounds: of each bound by a trait, the words of its path.
    Type { ident: String, bounds: Vec<Option<Vec<String>>> },
    /// A lifetime or a constant.
    Other,
}

/// A field: its name where it has one and, where its type is a path, the words of that.
#[derive(Debug)]
pub struct Field {
    pub ident: Option<String>,
    pub ty: Option<Vec<String>>,
}

/// The fields of a struct.
#[derive(Debug)]
pub enum Fields {
    Named(Vec<Field>),
    Unnamed(Vec<Field>),
    Unit,
}

/// What an item is.
#[derive(Debug)]
pub enum Data {
    Struct(Fields),
    /// An enum or a union.
    Other,
}

/// An item for which a component is derived.
#[derive(Debug)]
pub struct ComponentInput<X> {
    pub attrs: Vec<Attribute<X>>,
    pub params: Vec<GenericParam>,
    pub data: Data,
}

/// Why nothing can be derived.
#[derive(Debug)]
pub enum DeriveError<X> {
    /// An attribute for components could not be read.
    Unreadable(X),
    /// No attribute gives the component a name.
    MissingName,
    /// The item is no struct.
    NotStruct,
}

impl<X> DeriveError<X> {
    /// The text of the error's message, where the error has none of its own.
    pub open spec fn text(self) -> Option<Seq<char>> {
        match self {
            DeriveError::Unreadable(_) => None,
            DeriveError::MissingName => Some("missing #[component(name = \"...\")] attribute"@),
            DeriveError::NotStruct => Some("Component can only be derived for structs"@),
        }
    }

    /// The error's message, where the error has none of its own.
    pub fn message(&self) -> (r: Option<&'static str>)
        ensures
            match r {
                Some(message) => self.text() == Some(message@),
                None => self.text() is None,
            },
    {
        match self {
            DeriveError::Unreadable(_) => None,
            DeriveError::MissingName => Some("missing #[component(name = \"...\")] attribute"),
            DeriveError::NotStruct => Some("Component can only be derived for structs"),
        }
    }
}

/// How a field is reached.
#[derive(Debug, PartialEq, Eq)]
pub enum Accessor {
    Named(String),
    Index(usize),
}

/// The value of an accessor.
pub enum AccessorView {
    Named(Seq<char>),
    Index(nat),
}

impl View for Accessor {
    type V = AccessorView;

    open spec fn view(&self) -> AccessorView {
        match *self {
            Accessor::Named(ident) => AccessorView::Named(ident@),
            Accessor::Index(i) => AccessorView::Index(i as nat),
        }
    }
}

impl AccessorView {
    /// The name of the field's label: its own name, or its position.
    pub open spec fn label(self) -> Seq<char> {
        match self {
            AccessorView::Named(ident) => ident,
            AccessorView::Index(i) => decimal(i),
        }
    }
}

/// What a field is to a component.
#[derive(Clone, Copy, Debug, PartialEq, Eq, Structural)]
pub enum FieldKind {
    /// A component of its own: it takes the name so far as its owner.
    Comp,
    /// A value: it is added to the name, and becomes a label.
    Value,
}

/// A field of a component.
#[derive(Debug)]
pub struct Step {
    pub kind: FieldKind,
    pub accessor: Accessor,
}

/// The value of a step.
pub struct StepView {
    pub kind: FieldKind,
    pub accessor: AccessorView,
}

impl View for Step {
    type V = StepView;

    open spec fn view(&self) -> StepView {
        StepView { kind: self.kind, accessor: self.accessor@ }
    }
}

/// What is derived for a component.
#[derive(Debug)]
pub struct ComponentPlan {
    pub name: String,
    /// The fields in the order in which they are added to the name.
    pub steps: Vec<Step>,
    /// The labels, each with the field that it shows.
    pub labels: Vec<(String, Accessor)>,
}

/// Whether an attribute settles what a component is called: it is one for components, and gives
/// a name or cannot be read.
pub open spec fn is_decisive<X>(attr: Attribute<X>) -> bool {
    &&& attr.path matches Some(path)
    &&& path@ == "component"@
    &&& match attr.args {
        Ok(Meta::NameValue { path: Some(key), text: Some(_) }) => key@ == "name"@,
        Ok(_) => false,
        Err(_) => true,
    }
}

/// Whether the attribute at a position is the first that settles what a component is called.
pub open spec fn first_decisive<X>(attrs: Seq<Attribute<X>>, i: int) -> bool {
    &&& 0 <= i < attrs.len()
    &&& is_decisive(attrs[i])
    &&& forall|k: int| 0 <= k < i ==> !is_decisive(#[trigger] attrs[k])
}

/// Whether `found` is the name that attributes give a component: that of the first attribute
/// that settles it.
pub open spec fn names_component<X>(
    attrs: Seq<Attribute<X>>,
    found: Result<Seq<char>, DeriveError<X>>,
) -> bool {
    match found {
        Ok(name) => exists|i: int| #[trigger]
            first_decisive(attrs, i) && (attrs[i].args matches Ok(Meta::NameValue {
                path: _,
                text: Some(text),
            }) && text@ == name),
        Err(DeriveError::Unreadable(error)) => exists|i: int| #[trigger]
            first_decisive(attrs, i) && attrs[i].args == Err::<Meta, X>(error),
        Err(DeriveError::MissingName) => forall|i: int|
            0 <= i < attrs.len() ==> !is_decisive(#[trigger] attrs[i]),
        Err(DeriveError::NotStruct) => false,
    }
}

/// The text in the result of a search for a name.
pub open spec fn found_text<X>(found: Result<String, DeriveError<X>>) -> Result<
    Seq<char>,
    DeriveError<X>,
> {
    match found {
        Ok(name) => Ok(name@),
        Err(error) => Err(error),
    }
}

fn is_word(word: &Option<String>, text: &str) -> (r: bool)
    ensures
        r == (word matches Some(w) && w@ == text@),
{
    match word {
        Some(word) => *word == text.to_string(),
        None => false,
    }
}

fn decides<X>(attr: &Attribute<X>) -> (r: bool)
    ensures
        r == is_decisive(*attr),
{
    if !is_word(&attr.path, "component") {
        return false;
    }
    match &attr.args {
        Ok(Meta::NameValue { path, text }) => is_word(path, "name") && text.is_some(),
        Ok(Meta::Other) => false,
        Err(_) => true,
    }
}

/// Whether `read` is an attribute that `syn` read. Only of one for components it matters what is
/// inside the brackets.
pub open spec fn reads_one(read: Attribute<syn::Error>, attr: SynAttribute) -> bool {
    &&& opt_text(read.path) == attribute_word(attr)
    &&& args_view(read.args) == if attribute_word(attr) == Some("component"@) {
        attribute_args(attr)
    } else {
        Ok(MetaView::Other)
    }
}

/// Whether `read` are the attributes that `syn` read, one for one.
pub open spec fn reads(read: Seq<Attribute<syn::Error>>, attrs: Seq<SynAttribute>) -> bool {
    &&& read.len() == attrs.len()
    &&& forall|i: int| 0 <= i < attrs.len() ==> reads_one(#[trigger] read[i], attrs[i])
}

/// Reads the attributes of an item.
pub fn read_attributes(attrs: &Vec<SynAttribute>) -> (read: Vec<Attribute<syn::Error>>)
    ensures
        reads(read@, attrs@),
{
    let mut read: Vec<Attribute<syn::Error>> = Vec::new();
    let mut i: usize = 0;
    while i < attrs.len()
        invariant
            i <= attrs.len(),
            reads(read@, attrs@.take(i as int)),
        decreases attrs.len() - i,
    {
        let ghost before = read@;
        let path = word_of(&attrs[i]);
        let args = if is_word(&path, "component") {
            args_of(&attrs[i])
        } else {
            Ok(Meta::Other)
        };
        read.push(Attribute { path, args });
        proof {
            let next = attrs@.take(i + 1);
            assert forall|k: int| 0 <= k < next.len() implies reads_one(
                #[trigger] read@[k],
                next[k],
            ) by {
                if k < i {
                    assert(read@[k] == before[k]);
                    assert(next[k] == attrs@.take(i as int)[k]);
                }
            }
        }
        i = i + 1;
    }
    proof {
        assert(attrs@.take(i as int) =~= attrs@);
    }
    read
}

/// Finds the name that the attributes of an item give a component.
pub fn find_component_name(attrs: &Vec<SynAttribute>) -> (r: Result<String, DeriveError<syn::Error>>)
    ensures
        exists|read: Seq<Attribute<syn::Error>>| #[trigger]
            reads(read, attrs@) && names_component(read, found_text(r)),
{
    let read = read_attributes(attrs);
    let ghost all = read@;
    let found = component_name(read);
    assert(reads(all, attrs@) && names_component(all, found_text(found)));
    found
}

/// Finds the name that attributes give a component.
pub fn component_name<X>(attrs: Vec<Attribute<X>>) -> (r: Result<String, DeriveError<X>>)
    ensures
        names_component(attrs@, found_text(r)),
{
    let mut left = attrs;
    let mut i: usize = 0;
    while i < left.len()
        invariant
            left@ == attrs@,
            i <= left.len(),
            forall|k: int| 0 <= k < i ==> !is_decisive(#[trigger] attrs@[k]),
        decreases left.len() - i,
    {
        if decides(&left[i]) {
            assert(first_decisive(attrs@, i as int));
            let attr = left.remove(i);
            match attr.args {
                Ok(Meta::NameValue { path: _, text: Some(text) }) => return Ok(text),
                Err(error) => return Err(DeriveError::Unreadable(error)),
                _ => return Err(DeriveError::MissingName),
            }
        }
        i = i + 1;
    }
    Err(DeriveError::MissingName)
}

/// The last word of a path.
pub open spec fn last_word(path: Option<Vec<String>>) -> Option<Seq<char>> {
    match path {
        Some(words) => if words@.len() > 0 {
            Some(words@.last()@)
        } else {
            None
        },
        None => None,
    }
}

fn ends_in(path: &Option<Vec<String>>, text: &str) -> (r: bool)
    ensures
        r == (last_word(*path) == Some(text@)),
{
    match path {
        Some(words) => words.len() > 0 && words[words.len() - 1] == text.to_string(),
        None => false,
    }
}

/// Whether one of a type parameter's bounds is the trait of components.
pub open spec fn bounded_by_component(bounds: Seq<Option<Vec<String>>>) -> bool {
    exists|i: int|
        0 <= i < bounds.len() && last_word(#[trigger] bounds[i]) == Some("Component"@)
}

/// Whether one of a type parameter's bounds is the trait of components.
pub fn has_component_bound(bounds: &Vec<Option<Vec<String>>>) -> (r: bool)
    ensures
        r == bounded_by_component(bounds@),
        r <==> exists|k: int|
            0 <= k < bounds@.len() && (#[trigger] bounds@[k]) is Some && bounds@[k]->0@.len() > 0
                && bounds@[k]->0@.last()@ == "Component"@,
{
    let mut i: usize = 0;
    while i < bounds.len()
        invariant
            i <= bounds.len(),
            forall|k: int| 0 <= k < i ==> last_word(#[trigger] bounds@[k]) != Some("Component"@),
        decreases bounds.len() - i,
    {
        if ends_in(&bounds[i], "Component") {
            assert(last_word(bounds@[i as int]) == Some("Component"@));
            return true;
        }
        i = i + 1;
    }
    false
}

/// The names of the type parameters that are components, in their order.
pub open spec fn component_params(params: Seq<GenericParam>) -> Seq<Seq<char>>
    decreases params.len(),
{
    if params.len() == 0 {
        Seq::empty()
    } else {
        let rest = component_params(params.drop_last());
        match params.last() {
            GenericParam::Type { ident, bounds } => if bounded_by_component(bounds@) {
                rest.push(ident@)
            } else {
                rest
            },
            GenericParam::Other => rest,
        }
    }
}

fn collect_component_params(params: &Vec<GenericParam>) -> (r: Vec<String>)
    ensures
        texts(r@) == component_params(params@),
{
    let mut r: Vec<String> = Vec::new();
    assert(texts(r@) =~= Seq::<Seq<char>>::empty());
    let mut i: usize = 0;
    while i < params.len()
        invariant
            i <= params.len(),
            texts(r@) == component_params(params@.take(i as int)),
        decreases params.len() - i,
    {
        proof {
            assert(params@.take(i + 1).drop_last() =~= params@.take(i as int));
        }
        if let GenericParam::Type { ident, bounds } = &params[i] {
            if has_component_bound(bounds) {
                let ghost before = r@;
                let name = ident.clone();
                r.push(name);
                proof {
                    assert(texts(r@) =~= texts(before).push(name@));
                }
            }
        }
        i = i + 1;
    }
    proof {
        assert(params@.take(i as int) =~= params@);
    }
    r
}

/// What a field of a type is to a component with these type parameters that are components.
pub open spec fn kind_of(ty: Option<Vec<String>>, params: Seq<Seq<char>>) -> FieldKind {
    if last_word(ty) matches Some(word) && params.contains(word) {
        FieldKind::Comp
    } else {
        FieldKind::Value
    }
}

/// Whether a field's type is one of the type parameters that are components.
pub fn field_has_component_param(ty: &Option<Vec<String>>, params: &Vec<String>) -> (r: bool)
    ensures
        r == (kind_of(*ty, texts(params@)) == FieldKind::Comp),
        r <==> *ty is Some && (*ty)->0@.len() > 0 && exists|k: int|
            0 <= k < params@.len() && (#[trigger] params@[k])@ == (*ty)->0@.last()@,
{
    let ghost names = texts(params@);
    let mut i: usize = 0;
    while i < params.len()
        invariant
            i <= params.len(),
            names == texts(params@),
            forall|k: int| 0 <= k < i ==> last_word(*ty) != Some(#[trigger] names[k]),
        decreases params.len() - i,
    {
        if ends_in(ty, params[i].as_str()) {
            assert(names[i as int] == last_word(*ty)->0);
            assert(params@[i as int]@ == (*ty)->0@.last()@);
            return true;
        }
        i = i + 1;
    }
    proof {
        assert forall|k: int| 0 <= k < params@.len() implies last_word(*ty) != Some(
            (#[trigger] params@[k])@,
        ) by {
            assert(names[k] == params@[k]@);
        }
    }
    false
}

/// The fields of a struct with named fields, as they are added to a component's name.
pub open spec fn named_steps(fields: Seq<Field>, params: Seq<Seq<char>>) -> Seq<StepView>
    decreases fields.len(),
{
    if fields.len() == 0 {
        Seq::empty()
    } else {
        let rest = named_steps(fields.drop_last(), params);
        match fields.last().ident {
            Some(ident) => rest.push(
                StepView {
                    kind: kind_of(fields.last().ty, params),
                    accessor: AccessorView::Named(ident@),
                },
            ),
            None => rest,
        }
    }
}

/// The fields of a struct with unnamed fields, as they are added to a component's name.
pub open spec fn unnamed_steps(fields: Seq<Field>, params: Seq<Seq<char>>) -> Seq<StepView> {
    Seq::new(
        fields.len(),
        |i: int|
            StepView {
                kind: kind_of(fields[i].ty, params),
                accessor: AccessorView::Index(i as nat),
            },
    )
}

/// The fields of a struct, as they are added to a component's name.
pub open spec fn all_steps(fields: Fields, params: Seq<Seq<char>>) -> Seq<StepView> {
    match fields {
        Fields::Named(fields) => named_steps(fields@, params),
        Fields::Unnamed(fields) => unnamed_steps(fields@, params),
        Fields::Unit => Seq::empty(),
    }
}

/// The labels of the fields that are values, each with its field.
pub open spec fn value_labels(steps: Seq<StepView>) -> Seq<(Seq<char>, AccessorView)>
    decreases steps.len(),
{
    if steps.len() == 0 {
        Seq::empty()
    } else {
        let rest = value_labels(steps.drop_last());
        if steps.last().kind is Value {
            rest.push((steps.last().accessor.label(), steps.last().accessor))
        } else {
            rest
        }
    }
}

/// The values of steps.
pub open spec fn step_views(steps: Seq<Step>) -> Seq<StepView> {
    steps.map_values(|s: Step| s@)
}

/// The values of labels.
pub open spec fn label_views(labels: Seq<(String, Accessor)>) -> Seq<(Seq<char>, AccessorView)> {
    labels.map_values(|l: (String, Accessor)| (l.0@, l.1@))
}

impl Accessor {
    /// The name of the field's label.
    pub fn label(&self) -> (r: String)
        ensures
            r@ == self@.label(),
            self matches Accessor::Named(ident) ==> r@ == ident@,
            self matches Accessor::Index(i) ==> r@ == decimal(*i as nat),
    {
        match self {
            Accessor::Named(ident) => ident.clone(),
            Accessor::Index(i) => decimal_text(*i),
        }
    }
}

impl Clone for Accessor {
    fn clone(&self) -> (r: Self)
        ensures
            r@ == self@,
    {
        match self {
            Accessor::Named(ident) => Accessor::Named(ident.clone()),
            Accessor::Index(i) => Accessor::Index(*i),
        }
    }
}

impl ComponentPlan {
    /// A plan without fields yet.
    fn new(name: String) -> (plan: Self)
        ensures
            plan.name == name,
            step_views(plan.steps@) == Seq::<StepView>::empty(),
            label_views(plan.labels@) == Seq::<(Seq<char>, AccessorView)>::empty(),
    {
        let plan = ComponentPlan { name, steps: Vec::new(), labels: Vec::new() };
        assert(step_views(plan.steps@) =~= Seq::<StepView>::empty());
        assert(label_views(plan.labels@) =~= Seq::<(Seq<char>, AccessorView)>::empty());
        plan
    }

    /// Adds a field.
    fn push(&mut self, kind: FieldKind, accessor: Accessor)
        requires
            label_views(old(self).labels@) == value_labels(step_views(old(self).steps@)),
        ensures
            final(self).name == old(self).name,
            step_views(final(self).steps@) == step_views(old(self).steps@).push(
                (StepView { kind, accessor: accessor@ }),
            ),
            label_views(final(self).labels@) == value_labels(step_views(final(self).steps@)),
    {
        let ghost steps = step_views(self.steps@);
        let ghost labels = label_views(self.labels@);
        let ghost added = StepView { kind, accessor: accessor@ };
        if let FieldKind::Value = kind {
            let label = accessor.label();
            self.labels.push((label, accessor.clone()));
            proof {
                assert(label_views(self.labels@) =~= labels.push((accessor@.label(), accessor@)));
            }
        }
        self.steps.push(Step { kind, accessor });
        proof {
            assert(step_views(self.steps@) =~= steps.push(added));
            assert(steps.push(added).drop_last() =~= steps);
        }
    }
}

fn field_kind(field: &Field, params: &Vec<String>) -> (kind: FieldKind)
    ensures
        kind == kind_of(field.ty, texts(params@)),
{
    if field_has_component_param(&field.ty, params) {
        FieldKind::Comp
    } else {
        FieldKind::Value
    }
}

/// Whether `plan` is what is derived for an item with these fields and type parameters.
pub open spec fn plans(plan: ComponentPlan, fields: Fields, params: Seq<GenericParam>) -> bool {
    &&& step_views(plan.steps@) == all_steps(fields, component_params(params))
    &&& label_views(plan.labels@) == value_labels(step_views(plan.steps@))
}

/// Plans what is derived for a component. A name is looked for first, so an item that is no
/// struct is refused for that only if it has one.
pub fn expand_component<X>(input: ComponentInput<X>) -> (r: Result<
    ComponentPlan,
    DeriveError<X>,
>)
    ensures
        match r {
            Ok(plan) => {
                &&& names_component(input.attrs@, Ok(plan.name@))
                &&& input.data matches Data::Struct(fields)
                &&& plans(plan, fields, input.params@)
            },
            Err(DeriveError::NotStruct) => {
                &&& input.data is Other
                &&& exists|name: Seq<char>| #[trigger] names_component(input.attrs@, Ok(name))
            },
            Err(error) => names_component(input.attrs@, Err(error)),
        },
{
    let name = match component_name(input.attrs) {
        Ok(name) => name,
        Err(error) => return Err(error),
    };
    let params = collect_component_params(&input.params);
    let ghost names = component_params(input.params@);
    let fields = match input.data {
        Data::Struct(fields) => fields,
        Data::Other => {
            assert(names_component(input.attrs@, Ok(name@)));
            return Err(DeriveError::NotStruct);
        },
    };
    let mut plan = ComponentPlan::new(name);
    match fields {
        Fields::Named(fields) => {
            let mut i: usize = 0;
            while i < fields.len()
                invariant
                    i <= fields.len(),
                    plan.name == name,
                    names == texts(params@),
                    step_views(plan.steps@) == named_steps(fields@.take(i as int), names),
                    label_views(plan.labels@) == value_labels(step_views(plan.steps@)),
                decreases fields.len() - i,
            {
                proof {
                    assert(fields@.take(i + 1).drop_last() =~= fields@.take(i as int));
                }
                if let Some(ident) = &fields[i].ident {
                    let kind = field_kind(&fields[i], &params);
                    plan.push(kind, Accessor::Named(ident.clone()));
                }
                i = i + 1;
            }
            proof {
                assert(fields@.take(i as int) =~= fields@);
            }
        },
        Fields::Unnamed(fields) => {
            let mut i: usize = 0;
            proof {
                assert(unnamed_steps(fields@.take(0), names) =~= Seq::<StepView>::empty());
            }
            while i < fields.len()
                invariant
                    i <= fields.len(),
                    plan.name == name,
                    names == texts(params@),
                    step_views(plan.steps@) == unnamed_steps(fields@.take(i as int), names),
                    label_views(plan.labels@) == value_labels(step_views(plan.steps@)),
                decreases fields.len() - i,
            {
                let kind = field_kind(&fields[i], &params);
                plan.push(kind, Accessor::Index(i));
                proof {
                    assert(unnamed_steps(fields@.take(i + 1), names) =~= unnamed_steps(
                        fields@.take(i as int),
                        names,
                    ).push(
                        StepView { kind, accessor: AccessorView::Index(i as nat) },
                    ));
                }
                i = i + 1;
            }
            proof {
                assert(fields@.take(i as int) =~= fields@);
            }
        },
        Fields::Unit => {},
    }
    Ok(plan)
}

/// What the fields of a component hold: the text of a value and, of a component, its name and
/// the parts that its own fields add to it.
pub struct FieldTexts {
    pub value: spec_fn(AccessorView) -> Seq<char>,
    pub inner: spec_fn(AccessorView) -> (Seq<char>, Seq<Seq<char>>),
}

/// The name that a component of an owner gets from its steps, one after the other: a value is
/// added to the name so far, and a component takes the name so far as its owner.
pub open spec fn stepwise_name(
    owner: Seq<char>,
    component: Seq<char>,
    steps: Seq<StepView>,
    held: FieldTexts,
) -> Seq<char>
    decreases steps.len(),
{
    if steps.len() == 0 {
        extended(owner, component)
    } else {
        let name = stepwise_name(owner, component, steps.drop_last(), held);
        let accessor = steps.last().accessor;
        match steps.last().kind {
            FieldKind::Value => extended(name, (held.value)(accessor)),
            FieldKind::Comp => instance_text(
                name,
                (held.inner)(accessor).0,
                (held.inner)(accessor).1,
            ),
        }
    }
}

/// The parts that steps add to a name.
pub open spec fn added_parts(steps: Seq<StepView>, held: FieldTexts) -> Seq<Seq<char>>
    decreases steps.len(),
{
    if steps.len() == 0 {
        Seq::empty()
    } else {
        let parts = added_parts(steps.drop_last(), held);
        let accessor = steps.last().accessor;
        match steps.last().kind {
            FieldKind::Value => parts.push((held.value)(accessor)),
            FieldKind::Comp => parts.push((held.inner)(accessor).0) + (held.inner)(accessor).1,
        }
    }
}

proof fn lemma_stepwise_name(
    owner: Seq<char>,
    component: Seq<char>,
    steps: Seq<StepView>,
    held: FieldTexts,
)
    ensures
        stepwise_name(owner, component, steps, held) == instance_text(
            owner,
            component,
            added_parts(steps, held),
        ),
    decreases steps.len(),
{
    if steps.len() > 0 {
        lemma_stepwise_name(owner, component, steps.drop_last(), held);
        let before = added_parts(steps.drop_last(), held);
        let accessor = steps.last().accessor;
        match steps.last().kind {
            FieldKind::Value => {
                assert(before.push((held.value)(accessor)).drop_last() =~= before);
            },
            FieldKind::Comp => {
                inner_components_extend_the_name(
                    owner,
                    component,
                    before,
                    (held.inner)(accessor).0,
                    (held.inner)(accessor).1,
                );
            },
        }
    }
}

/// The steps of a plan give a component its instance name: that of its owner and its own, with
/// the parts of every field added in the order of the fields.
pub proof fn steps_give_the_instance_name(
    plan: ComponentPlan,
    fields: Fields,
    params: Seq<GenericParam>,
    owner: Seq<char>,
    held: FieldTexts,
)
    requires
        plans(plan, fields, params),
    ensures
        stepwise_name(owner, plan.name@, step_views(plan.steps@), held) == instance_text(
            owner,
            plan.name@,
            added_parts(all_steps(fields, component_params(params)), held),
        ),
{
    lemma_stepwise_name(owner, plan.name@, step_views(plan.steps@), held);
}

/// The labels of a plan with the values that their fields hold.
pub open spec fn held_labels(
    labels: Seq<(Seq<char>, AccessorView)>,
    held: FieldTexts,
) -> Seq<(Seq<char>, Seq<char>)> {
    labels.map_values(|l: (Seq<char>, AccessorView)| (l.0, (held.value)(l.1)))
}

proof fn lemma_label_shown(
    owner: Seq<char>,
    component: Seq<char>,
    steps: Seq<StepView>,
    held: FieldTexts,
    i: int,
)
    requires
        0 <= i < steps.len(),
        steps[i].kind is Value,
        forall|j: int|
            i < j < steps.len() && (#[trigger] steps[j]).kind is Value
                ==> steps[j].accessor.label() != steps[i].accessor.label(),
    ensures
        ({
            let labels = label_map(owner, component, held_labels(value_labels(steps), held));
            let key = label_key(steps[i].accessor.label());
            labels.contains_key(key) && labels[key] == (held.value)(steps[i].accessor)
        }),
    decreases steps.len(),
{
    let rest = steps.drop_last();
    let last = steps.last();
    let before = held_labels(value_labels(rest), held);
    let all = held_labels(value_labels(steps), held);
    if last.kind is Value {
        let entry = (last.accessor.label(), (held.value)(last.accessor));
        assert(all =~= before.push(entry));
        assert(all.drop_last() =~= before);
    }
    if i < rest.len() {
        assert(rest[i] == steps[i]);
        assert forall|j: int| i < j < rest.len() && (#[trigger] rest[j]).kind is Value implies rest[j].accessor.label()
            != rest[i].accessor.label() by {
            assert(steps[j] == rest[j]);
        }
        lemma_label_shown(owner, component, rest, held, i);
        if last.kind is Value {
            assert(steps[steps.len() - 1] == last);
            let a = steps[i].accessor.label();
            let b = last.accessor.label();
            reveal_strlit("ech.bz/");
            assert(label_key(a).skip(7) =~= a);
            assert(label_key(b).skip(7) =~= b);
        }
    }
}

/// The labels of a plan show the value of every field that is one, under the field's label, as
/// long as no later field has the same label.
pub proof fn labels_show_every_value(
    plan: ComponentPlan,
    fields: Fields,
    params: Seq<GenericParam>,
    owner: Seq<char>,
    held: FieldTexts,
    i: int,
)
    requires
        plans(plan, fields, params),
        0 <= i < plan.steps@.len(),
        step_views(plan.steps@)[i].kind is Value,
        forall|j: int|
            i < j < plan.steps@.len() && (#[trigger] step_views(plan.steps@)[j]).kind is Value
                ==> step_views(plan.steps@)[j].accessor.label() != step_views(
                plan.steps@,
            )[i].accessor.label(),
    ensures
        ({
            let labels = label_map(
                owner,
                plan.name@,
                held_labels(label_views(plan.labels@), held),
            );
            let accessor = step_views(plan.steps@)[i].accessor;
            let key = label_key(accessor.label());
            labels.contains_key(key) && labels[key] == (held.value)(accessor)
        }),
{
    lemma_label_shown(owner, plan.name@, step_views(plan.steps@), held, i);
}

/// Unnamed fields have labels of their own: no two positions are written alike.
pub proof fn positions_have_labels_of_their_own(
    fields: Seq<Field>,
    params: Seq<Seq<char>>,
    i: int,
    j: int,
)
    requires
        0 <= i < fields.len(),
        0 <= j < fields.len(),
        i != j,
    ensures
        unnamed_steps(fields, params)[i].accessor.label() != unnamed_steps(
            fields,
            params,
        )[j].accessor.label(),
{
    if decimal(i as nat) == decimal(j as nat) {
        decimal_injective(i as nat, j as nat);
    }
}

/// Whether an attribute leaves open what a component is called: it is none for components, or can be
/// read and gives no name.
pub open spec fn is_silent<X>(attr: Attribute<X>) -> bool {
    ||| attr.path is None
    ||| attr.path->0@ != "component"@
    ||| attr.args matches Ok(meta) && (meta is Other || meta->path is None || meta->path->0@
        != "name"@ || meta->text is None)
}

/// The name of a component is the text of the first attribute `component` that has one under
/// `name`, unless such an attribute before it cannot be read: that one's error then is the result.
/// The name is missing where every attribute leaves it open.
pub proof fn components_are_named_by_the_first_attribute<X>(
    attrs: Seq<Attribute<X>>,
    found: Result<Seq<char>, DeriveError<X>>,
)
    requires
        names_component(attrs, found),
    ensures
        match found {
            Ok(name) => exists|i: int|
                {
                    &&& 0 <= i < attrs.len()
                    &&& (#[trigger] attrs[i]).path is Some
                    &&& attrs[i].path->0@ == "component"@
                    &&& attrs[i].args is Ok
                    &&& attrs[i].args->Ok_0 is NameValue
                    &&& attrs[i].args->Ok_0->path is Some
                    &&& attrs[i].args->Ok_0->path->0@ == "name"@
                    &&& attrs[i].args->Ok_0->text is Some
                    &&& attrs[i].args->Ok_0->text->0@ == name
                    &&& forall|k: int| 0 <= k < i ==> is_silent(#[trigger] attrs[k])
                },
            Err(DeriveError::Unreadable(error)) => exists|i: int|
                {
                    &&& 0 <= i < attrs.len()
                    &&& (#[trigger] attrs[i]).path is Some
                    &&& attrs[i].path->0@ == "component"@
                    &&& attrs[i].args == Err::<Meta, X>(error)
                    &&& forall|k: int| 0 <= k < i ==> is_silent(#[trigger] attrs[k])
                },
            Err(DeriveError::MissingName) => forall|k: int|
                0 <= k < attrs.len() ==> is_silent(#[trigger] attrs[k]),
            Err(DeriveError::NotStruct) => false,
        },
{
    assert forall|k: int| 0 <= k < attrs.len() && !is_decisive(attrs[k]) implies is_silent(
        #[trigger] attrs[k],
    ) by {}
    if found is Ok || (found matches Err(error) && error is Unreadable) {
        let i = choose|i: int| #[trigger] first_decisive(attrs, i);
        assert(first_decisive(attrs, i));
        lemma_first_decisive(attrs, i, found);
        assert(attrs[i].path is Some);
    }
}

proof fn lemma_first_decisive<X>(
    attrs: Seq<Attribute<X>>,
    i: int,
    found: Result<Seq<char>, DeriveError<X>>,
)
    requires
        first_decisive(attrs, i),
        names_component(attrs, found),
    ensures
        match found {
            Ok(name) => attrs[i].args matches Ok(Meta::NameValue { path: _, text: Some(text) })
                && text@ == name,
            Err(DeriveError::Unreadable(error)) => attrs[i].args == Err::<Meta, X>(error),
            _ => false,
        },
{
    if exists|k: int| #[trigger] first_decisive(attrs, k) && k != i {
        let k = choose|k: int| #[trigger] first_decisive(attrs, k) && k != i;
        if k < i {
            assert(!is_decisive(attrs[k]));
        } else {
            assert(!is_decisive(attrs[i]));
        }
    }
    if found matches Err(error) && error is MissingName {
        assert(!is_decisive(attrs[i]));
    }
}

/// Attributes give a component one name, or one reason why it has none.
pub proof fn components_have_one_name<X>(
    attrs: Seq<Attribute<X>>,
    one: Result<Seq<char>, DeriveError<X>>,
    other: Result<Seq<char>, DeriveError<X>>,
)
    requires
        names_component(attrs, one),
        names_component(attrs, other),
    ensures
        one == other,
{
    if exists|i: int| #[trigger] first_decisive(attrs, i) {
        let i = choose|i: int| #[trigger] first_decisive(attrs, i);
        lemma_first_decisive(attrs, i, one);
        lemma_first_decisive(attrs, i, other);
    }
}

/// Whether an attribute, as `syn` reads it, leaves open what a component is called.
pub open spec fn is_silent_as_read(attr: SynAttribute) -> bool {
    attribute_word(attr) == Some("component"@) ==> {
        &&& attribute_args(attr) is Ok
        &&& attribute_args(attr)->Ok_0 matches MetaView::NameValue { path, text } ==> path != Some(
            "name"@,
        ) || text is None
    }
}

/// The name of a component is the text under `name` inside the brackets of the first attribute
/// `component` that has one there, unless such an attribute before it cannot be read: its error
/// then is the result. The name is missing where every attribute leaves it open.
pub proof fn names_are_found_inside_the_brackets(
    attrs: Seq<SynAttribute>,
    read: Seq<Attribute<syn::Error>>,
    found: Result<String, DeriveError<syn::Error>>,
)
    requires
        reads(read, attrs),
        names_component(read, found_text(found)),
    ensures
        match found {
            Ok(name) => exists|i: int|
                {
                    &&& 0 <= i < attrs.len()
                    &&& attribute_word(#[trigger] attrs[i]) == Some("component"@)
                    &&& attribute_args(attrs[i]) == Ok::<_, syn::Error>(
                        MetaView::NameValue { path: Some("name"@), text: Some(name@) },
                    )
                    &&& forall|k: int| 0 <= k < i ==> is_silent_as_read(#[trigger] attrs[k])
                },
            Err(DeriveError::Unreadable(error)) => exists|i: int|
                {
                    &&& 0 <= i < attrs.len()
                    &&& attribute_word(#[trigger] attrs[i]) == Some("component"@)
                    &&& attribute_args(attrs[i]) == Err::<MetaView, _>(error)
                    &&& forall|k: int| 0 <= k < i ==> is_silent_as_read(#[trigger] attrs[k])
                },
            Err(DeriveError::MissingName) => forall|k: int|
                0 <= k < attrs.len() ==> is_silent_as_read(#[trigger] attrs[k]),
            Err(DeriveError::NotStruct) => false,
        },
{
    let text = found_text(found);
    assert forall|k: int| 0 <= k < attrs.len() && !is_decisive(
        read[k],
    ) implies is_silent_as_read(#[trigger] attrs[k]) by {
        assert(reads_one(read[k], attrs[k]));
    }
    if exists|i: int| #[trigger] first_decisive(read, i) {
        let i = choose|i: int| #[trigger] first_decisive(read, i);
        lemma_first_decisive(read, i, text);
        assert(reads_one(read[i], attrs[i]));
        assert(attribute_word(attrs[i]) == Some("component"@));
        assert forall|k: int| 0 <= k < i implies is_silent_as_read(#[trigger] attrs[k]) by {
            assert(!is_decisive(read[k]));
        }
    } else if found matches Err(error) && error is MissingName {
        assert forall|k: int| 0 <= k < attrs.len() implies is_silent_as_read(
            #[trigger] attrs[k],
        ) by {
            assert(!is_decisive(read[k]));
        }
    }
}

/// What is derived says in its messages what is missing or in the way; an attribute that cannot be
/// read has a message of its own.
pub proof fn derive_messages_say_what_is_wrong<X>(error: X)
    ensures
        DeriveError::<X>::MissingName.text() == Some("missing #[component(name = \"...\")] attribute"@),
        DeriveError::<X>::NotStruct.text() == Some("Component can only be derived for structs"@),
        DeriveError::Unreadable(error).text() is None,
{
}

/// Whether a generic parameter is a type of this name of which one bound ends in `Component`.
pub open spec fn is_component_param(param: GenericParam, name: Seq<char>) -> bool {
    &&& param is Type
    &&& param->ident@ == name
    &&& exists|j: int|
        0 <= j < param->bounds@.len() && (#[trigger] param->bounds@[j]) is Some
            && param->bounds@[j]->0@.len() > 0 && param->bounds@[j]->0@.last()@ == "Component"@
}

/// Whether a field's type ends in the name of a type parameter that is a component.
pub open spec fn is_component_type(ty: Option<Vec<String>>, params: Seq<GenericParam>) -> bool {
    &&& ty is Some
    &&& ty->0@.len() > 0
    &&& exists|p: int| 0 <= p < params.len() && #[trigger] is_component_param(params[p], ty->0@.last()@)
}

proof fn lemma_component_param(param: GenericParam, name: Seq<char>)
    ensures
        is_component_param(param, name) <==> param is Type && param->ident@ == name
            && bounded_by_component(param->bounds@),
{
    if param is Type && bounded_by_component(param->bounds@) {
        let j = choose|j: int|
            0 <= j < param->bounds@.len() && last_word(#[trigger] param->bounds@[j]) == Some(
                "Component"@,
            );
        assert(param->bounds@[j] is Some);
    }
    if is_component_param(param, name) {
        let j = choose|j: int|
            0 <= j < param->bounds@.len() && (#[trigger] param->bounds@[j]) is Some
                && param->bounds@[j]->0@.len() > 0 && param->bounds@[j]->0@.last()@
                == "Component"@;
        assert(last_word(param->bounds@[j]) == Some("Component"@));
    }
}

/// The type parameters that are components are those of which one bound ends in `Component`.
pub proof fn component_params_are_those_with_the_bound(params: Seq<GenericParam>, name: Seq<char>)
    ensures
        component_params(params).contains(name) <==> exists|p: int|
            0 <= p < params.len() && #[trigger] is_component_param(params[p], name),
    decreases params.len(),
{
    let all = component_params(params);
    if params.len() > 0 {
        let rest = params.drop_last();
        let last = params.len() - 1;
        component_params_are_those_with_the_bound(rest, name);
        lemma_component_param(params[last], name);
        let before = component_params(rest);
        if before.contains(name) {
            let k = before.index_of(name);
            assert(all[k] == name);
            let p = choose|p: int|
                0 <= p < rest.len() && #[trigger] is_component_param(rest[p], name);
            assert(is_component_param(params[p], name));
        }
        if is_component_param(params[last], name) {
            assert(all[all.len() - 1] == name);
        }
        if all.contains(name) && !before.contains(name) {
            let k = all.index_of(name);
            if k < before.len() {
                assert(before[k] == name);
            }
            assert(is_component_param(params[last], name));
        }
        if exists|p: int| 0 <= p < params.len() && #[trigger] is_component_param(params[p], name) {
            let p = choose|p: int|
                0 <= p < params.len() && #[trigger] is_component_param(params[p], name);
            if p < last {
                assert(is_component_param(rest[p], name));
            }
        }
    }
}

proof fn lemma_kind(ty: Option<Vec<String>>, params: Seq<GenericParam>)
    ensures
        kind_of(ty, component_params(params)) is Comp <==> is_component_type(ty, params),
{
    if last_word(ty) is Some {
        component_params_are_those_with_the_bound(params, ty->0@.last()@);
    }
}

/// The fields of a struct whose fields have no names are added to the name by their positions, all
/// of them and in their order. One whose type is a type parameter that is a component is a component,
/// any other a value.
pub proof fn unnamed_fields_are_added_by_position(
    plan: ComponentPlan,
    fields: Seq<Field>,
    all: Fields,
    params: Seq<GenericParam>,
    i: int,
)
    requires
        plans(plan, all, params),
        all is Unnamed,
        all->Unnamed_0@ == fields,
    ensures
        plan.steps@.len() == fields.len(),
        0 <= i < fields.len() ==> {
            let step = plan.steps@[i];
            &&& step.accessor is Index
            &&& step.accessor->Index_0 == i
            &&& step.kind is Comp <==> is_component_type(fields[i].ty, params)
        },
{
    let steps = step_views(plan.steps@);
    assert(steps.len() == plan.steps@.len());
    if 0 <= i < fields.len() {
        lemma_kind(fields[i].ty, params);
        assert(steps[i] == plan.steps@[i]@);
    }
}

proof fn lemma_named_steps(fields: Seq<Field>, params: Seq<Seq<char>>) -> (at: Seq<int>)
    ensures
        at.len() == named_steps(fields, params).len(),
        forall|a: int, b: int| 0 <= a < b < at.len() ==> #[trigger] at[a] < #[trigger] at[b],
        forall|a: int|
            0 <= a < at.len() ==> 0 <= #[trigger] at[a] < fields.len() && fields[at[a]].ident is Some
                && named_steps(fields, params)[a] == (StepView {
                kind: kind_of(fields[at[a]].ty, params),
                accessor: AccessorView::Named(fields[at[a]].ident->0@),
            }),
        forall|i: int| #[trigger]
            at.contains(i) <==> 0 <= i < fields.len() && fields[i].ident is Some,
    decreases fields.len(),
{
    if fields.len() == 0 {
        Seq::empty()
    } else {
        let rest = fields.drop_last();
        let last = fields.len() - 1;
        let before = lemma_named_steps(rest, params);
        assert forall|i: int| 0 <= i < last implies rest[i] == #[trigger] fields[i] by {}
        if fields[last].ident is Some {
            let at = before.push(last);
            assert forall|i: int| #[trigger] at.contains(i) <==> 0 <= i < fields.len()
                && fields[i].ident is Some by {
                if at.contains(i) {
                    let a = at.index_of(i);
                    if a < before.len() {
                        assert(before[a] == i);
                    }
                }
                if i == last {
                    assert(at[before.len() as int] == last);
                } else if 0 <= i < last && fields[i].ident is Some {
                    assert(before.contains(i));
                    let a = before.index_of(i);
                    assert(at[a] == i);
                }
            }
            at
        } else {
            before
        }
    }
}

/// The fields of a struct whose fields have names are added to the name by these, all of them and in
/// their order: `at` are their places, one after the other. One whose type is a type parameter that
/// is a component is a component, any other a value.
pub proof fn named_fields_are_added_by_name(
    plan: ComponentPlan,
    fields: Seq<Field>,
    all: Fields,
    params: Seq<GenericParam>,
) -> (at: Seq<int>)
    requires
        plans(plan, all, params),
        all is Named,
        all->Named_0@ == fields,
    ensures
        at.len() == plan.steps@.len(),
        forall|a: int, b: int| 0 <= a < b < at.len() ==> #[trigger] at[a] < #[trigger] at[b],
        forall|i: int| #[trigger]
            at.contains(i) <==> 0 <= i < fields.len() && fields[i].ident is Some,
        forall|a: int|
            0 <= a < at.len() ==> {
                let field = fields[#[trigger] at[a]];
                let step = plan.steps@[a];
                &&& 0 <= at[a] < fields.len()
                &&& field.ident is Some
                &&& step.accessor is Named
                &&& step.accessor->Named_0@ == field.ident->0@
                &&& step.kind is Comp <==> is_component_type(field.ty, params)
            },
{
    let steps = step_views(plan.steps@);
    let at = lemma_named_steps(fields, component_params(params));
    assert forall|a: int| 0 <= a < at.len() implies {
        let field = fields[#[trigger] at[a]];
        let step = plan.steps@[a];
        &&& 0 <= at[a] < fields.len()
        &&& field.ident is Some
        &&& step.accessor is Named
        &&& step.accessor->Named_0@ == field.ident->0@
        &&& step.kind is Comp <==> is_component_type(field.ty, params)
    } by {
        lemma_kind(fields[at[a]].ty, params);
        assert(steps[a] == plan.steps@[a]@);
    }
    at
}

/// A struct without fields adds nothing to the name and has no labels of fields.
pub proof fn unit_structs_add_nothing(plan: ComponentPlan, params: Seq<GenericParam>)
    requires
        plans(plan, Fields::Unit, params),
    ensures
        plan.steps@.len() == 0,
        plan.labels@.len() == 0,
{
    assert(step_views(plan.steps@).len() == plan.steps@.len());
    assert(label_views(plan.labels@).len() == plan.labels@.len());
}

proof fn lemma_value_labels(steps: Seq<StepView>) -> (at: Seq<int>)
    ensures
        at.len() == value_labels(steps).len(),
        forall|a: int, b: int| 0 <= a < b < at.len() ==> #[trigger] at[a] < #[trigger] at[b],
        forall|a: int|
            0 <= a < at.len() ==> 0 <= #[trigger] at[a] < steps.len() && value_labels(steps)[a] == (
                steps[at[a]].accessor.label(),
                steps[at[a]].accessor,
            ),
        forall|i: int| #[trigger]
            at.contains(i) <==> 0 <= i < steps.len() && steps[i].kind is Value,
    decreases steps.len(),
{
    if steps.len() == 0 {
        Seq::empty()
    } else {
        let rest = steps.drop_last();
        let last = steps.len() - 1;
        let before = lemma_value_labels(rest);
        assert forall|i: int| 0 <= i < last implies rest[i] == #[trigger] steps[i] by {}
        if steps[last].kind is Value {
            let at = before.push(last);
            assert forall|i: int| #[trigger] at.contains(i) <==> 0 <= i < steps.len()
                && steps[i].kind is Value by {
                if at.contains(i) {
                    let a = at.index_of(i);
                    if a < before.len() {
                        assert(before[a] == i);
                        assert(before.contains(i));
                        assert(rest[i] == steps[i]);
                    }
                }
                if i == last {
                    assert(at[before.len() as int] == last);
                } else if 0 <= i < last && steps[i].kind is Value {
                    assert(before.contains(i));
                    let a = before.index_of(i);
                    assert(at[a] == i);
                }
            }
            at
        } else {
            before
        }
    }
}

/// Exactly the fields that are values have a label, in their order: `at` are the places of their
/// steps, one after the other. A label has the field's name or, where it has none, its position, and
/// shows that field.
pub proof fn labels_are_those_of_the_values(
    plan: ComponentPlan,
    fields: Fields,
    params: Seq<GenericParam>,
) -> (at: Seq<int>)
    requires
        plans(plan, fields, params),
    ensures
        at.len() == plan.labels@.len(),
        forall|a: int, b: int| 0 <= a < b < at.len() ==> #[trigger] at[a] < #[trigger] at[b],
        forall|i: int| #[trigger]
            at.contains(i) <==> 0 <= i < plan.steps@.len() && plan.steps@[i].kind is Value,
        forall|a: int|
            0 <= a < at.len() ==> {
                let accessor = plan.steps@[#[trigger] at[a]].accessor;
                &&& plan.labels@[a].1@ == accessor@
                &&& accessor is Named ==> plan.labels@[a].0@ == accessor->Named_0@
                &&& accessor is Index ==> plan.labels@[a].0@ == decimal(accessor->Index_0 as nat)
            },
{
    let steps = step_views(plan.steps@);
    let labels = label_views(plan.labels@);
    let at = lemma_value_labels(steps);
    assert forall|i: int| 0 <= i < steps.len() implies #[trigger] steps[i] == plan.steps@[i]@ by {}
    assert forall|i: int| #[trigger] at.contains(i) <==> 0 <= i < plan.steps@.len()
        && plan.steps@[i].kind is Value by {
        if 0 <= i < steps.len() {
            assert(steps[i] == plan.steps@[i]@);
        }
    }
    assert forall|a: int| 0 <= a < at.len() implies {
        let accessor = plan.steps@[#[trigger] at[a]].accessor;
        &&& plan.labels@[a].1@ == accessor@
        &&& accessor is Named ==> plan.labels@[a].0@ == accessor->Named_0@
        &&& accessor is Index ==> plan.labels@[a].0@ == decimal(accessor->Index_0 as nat)
    } by {
        assert(labels[a] == (plan.labels@[a].0@, plan.labels@[a].1@));
        assert(steps[at[a]] == plan.steps@[at[a]]@);
    }
    at
}

/// Attributes are read one for one. Of each, the path is read where it is a single word; and of one
/// for components, what is inside the brackets.
pub proof fn attributes_are_read_one_for_one(
    read: Seq<Attribute<syn::Error>>,
    attrs: Seq<SynAttribute>,
    i: int,
)
    requires
        reads(read, attrs),
        0 <= i < attrs.len(),
    ensures
        read.len() == attrs.len(),
        match read[i].path {
            Some(word) => attribute_word(attrs[i]) == Some(word@),
            None => attribute_word(attrs[i]) is None,
        },
        attribute_word(attrs[i]) != Some("component"@) ==> read[i].args is Ok
            && read[i].args->Ok_0 is Other,
        attribute_word(attrs[i]) == Some("component"@) ==> match read[i].args {
            Ok(Meta::NameValue { path, text }) => attribute_args(attrs[i]) == Ok::<_, syn::Error>(
                MetaView::NameValue {
                    path: match path {
                        Some(word) => Some(word@),
                        None => None,
                    },
                    text: match text {
                        Some(word) => Some(word@),
                        None => None,
                    },
                },
            ),
            Ok(Meta::Other) => attribute_args(attrs[i]) == Ok::<_, syn::Error>(MetaView::Other),
            Err(error) => attribute_args(attrs[i]) == Err::<MetaView, _>(error),
        },
{
    assert(reads_one(read[i], attrs[i]));
}

}
