//! Components: the names and labels of the resources that belong to an owner.
use crate::keyed::{text_map, StringMap};
use vstd::prelude::*;
use vstd::string::*;

verus! {

/// An error of JSON serialisation.
#[verifier::external_type_specification]
#[verifier::external_body]
pub struct ExSerdeJsonError(serde_json::Error);

/// `serde_json::Error`'s `to_string`: what went wrong, in words. Nothing is claimed of the words:
/// the cause may be an error of the operating system, which says what the machine makes it say.
#[verifier::external_body]
fn words_of(error: &serde_json::Error) -> (words: String) {
    error.to_string()
}

/// The text of the message of an error whose cause says `cause`.
pub open spec fn meta_error_text(cause: Seq<char>) -> Seq<char> {
    "failed to serialize for component meta: "@ + cause
}

/// The message of an error whose cause says `cause`.
pub fn meta_error_message(cause: &str) -> (r: String)
    ensures
        r@ == meta_error_text(cause@),
        r@ == "failed to serialize for component meta: "@ + cause@,
{
    let mut message = "failed to serialize for component meta: ".to_string();
    message.append(cause);
    message
}

/// Names or labels of a component could not be made because something in it could not be
/// serialised.
#[derive(Debug)]
pub struct ReconcilerMetaError(serde_json::Error);

impl ReconcilerMetaError {
    /// What went wrong.
    pub closed spec fn cause(self) -> serde_json::Error {
        self.0
    }

    /// The error's message.
    pub fn message(&self) -> (r: String)
        ensures
            exists|cause: Seq<char>| r@ == #[trigger] meta_error_text(cause),
    {
        meta_error_message(words_of(&self.0).as_str())
    }

    /// What went wrong.
    pub fn source(&self) -> (error: &serde_json::Error)
        ensures
            *error == self.cause(),
    {
        &self.0
    }
}

/// What went wrong is what the error was made from.
pub proof fn lemma_cause(error: serde_json::Error)
    ensures
        <ReconcilerMetaError as vstd::std_specs::convert::FromSpec<serde_json::Error>>::from_spec(
            error,
        ).cause() == error,
{
}

impl From<serde_json::Error> for ReconcilerMetaError {
    fn from(error: serde_json::Error) -> (r: Self) {
        ReconcilerMetaError(error)
    }
}

impl vstd::std_specs::convert::FromSpecImpl<serde_json::Error> for ReconcilerMetaError {
    open spec fn obeys_from_spec() -> bool {
        true
    }

    closed spec fn from_spec(error: serde_json::Error) -> Self {
        ReconcilerMetaError(error)
    }
}

/// A name with a part added to it.
pub open spec fn extended(name: Seq<char>, part: Seq<char>) -> Seq<char> {
    name + "-"@ + part
}

/// The name of a component of an owner, before its fields are added.
pub fn instance_prefix(owner: &str, component: &str) -> (name: String)
    ensures
        name@ == extended(owner@, component@),
        name@ == owner@ + "-"@ + component@,
{
    let mut name = owner.to_string();
    name.append("-");
    name.append(component);
    name
}

/// Adds a field's value to a name.
pub fn append_value(name: String, value: &str) -> (r: String)
    ensures
        r@ == extended(name@, value@),
        r@ == name@ + "-"@ + value@,
{
    let mut name = name;
    name.append("-");
    name.append(value);
    name
}

/// The name of a component of an owner to which parts are added, one after the other: the values
/// of fields and, for a field that is a component, its name and the values of its own fields.
pub open spec fn instance_text(
    owner: Seq<char>,
    component: Seq<char>,
    parts: Seq<Seq<char>>,
) -> Seq<char>
    decreases parts.len(),
{
    if parts.len() == 0 {
        extended(owner, component)
    } else {
        extended(instance_text(owner, component, parts.drop_last()), parts.last())
    }
}

/// The key of the label for a field.
pub open spec fn label_key(field: Seq<char>) -> Seq<char> {
    "ech.bz/"@ + field
}

/// The labels of a component of an owner whose fields have these values.
pub open spec fn label_map(
    owner: Seq<char>,
    component: Seq<char>,
    values: Seq<(Seq<char>, Seq<char>)>,
) -> Map<Seq<char>, Seq<char>>
    decreases values.len(),
{
    if values.len() == 0 {
        Map::empty().insert("ech.bz/owner"@, owner).insert("ech.bz/component"@, component)
    } else {
        label_map(owner, component, values.drop_last()).insert(
            label_key(values.last().0),
            values.last().1,
        )
    }
}

/// The texts of fields with their values.
pub open spec fn entry_texts(values: Seq<(String, String)>) -> Seq<(Seq<char>, Seq<char>)> {
    values.map_values(|e: (String, String)| (e.0@, e.1@))
}

/// The labels of a component of an owner: the owner, the component, and the value of each field.
pub fn labels(owner: &str, component: &str, values: &Vec<(String, String)>) -> (r: StringMap)
    ensures
        text_map(r@) == label_map(owner@, component@, entry_texts(values@)),
{
    let ghost entries = entry_texts(values@);
    let mut r = StringMap::new();
    r.insert("ech.bz/owner".to_string(), owner.to_string());
    r.insert("ech.bz/component".to_string(), component.to_string());
    proof {
        assert(text_map(r@) =~= label_map(owner@, component@, entries.take(0)));
    }
    let mut i: usize = 0;
    while i < values.len()
        invariant
            i <= values.len(),
            entries == entry_texts(values@),
            text_map(r@) == label_map(owner@, component@, entries.take(i as int)),
        decreases values.len() - i,
    {
        let ghost before = r@;
        let mut key = "ech.bz/".to_string();
        key.append(values[i].0.as_str());
        let value = values[i].1.clone();
        r.insert(key, value);
        proof {
            assert(entries.take(i + 1).drop_last() =~= entries.take(i as int));
            assert(text_map(r@) =~= text_map(before).insert(key@, value@));
        }
        i = i + 1;
    }
    proof {
        assert(entries.take(i as int) =~= entries);
    }
    r
}

/// The text of the selector for a component's resources.
pub open spec fn selector_text(owner: Seq<char>, component: Seq<char>) -> Seq<char> {
    "ech.bz/owner="@ + owner + ",ech.bz/component="@ + component
}

/// The label selector for the resources that a component of an owner has.
pub fn selector(owner: &str, component: &str) -> (r: String)
    ensures
        r@ == selector_text(owner@, component@),
        r@ == "ech.bz/owner="@ + owner@ + ",ech.bz/component="@ + component@,
{
    let mut r = "ech.bz/owner=".to_string();
    r.append(owner);
    r.append(",ech.bz/component=");
    r.append(component);
    r
}

/// An instance name begins with the names of the owner and of the component, whatever the fields
/// add to it.
pub proof fn instance_names_start_with_owner_and_component(
    owner: Seq<char>,
    component: Seq<char>,
    parts: Seq<Seq<char>>,
)
    ensures
        extended(owner, component).is_prefix_of(instance_text(owner, component, parts)),
    decreases parts.len(),
{
    if parts.len() > 0 {
        instance_names_start_with_owner_and_component(owner, component, parts.drop_last());
    }
}

/// A component that is a field of another takes the name so far as its owner: its own name is
/// that of the outer component with the inner one's name and parts added.
pub proof fn inner_components_extend_the_name(
    owner: Seq<char>,
    outer: Seq<char>,
    before: Seq<Seq<char>>,
    inner: Seq<char>,
    parts: Seq<Seq<char>>,
)
    ensures
        instance_text(instance_text(owner, outer, before), inner, parts) == instance_text(
            owner,
            outer,
            before.push(inner) + parts,
        ),
    decreases parts.len(),
{
    let all = before.push(inner) + parts;
    if parts.len() > 0 {
        inner_components_extend_the_name(owner, outer, before, inner, parts.drop_last());
        assert(all.drop_last() =~= before.push(inner) + parts.drop_last());
    } else {
        assert(all =~= before.push(inner));
        assert(all.drop_last() =~= before);
    }
}

/// The labels of a component are such as its selector asks for: they name the owner
/// and the component, whatever the fields, as long as no field is itself called `owner` or
/// `component`.
pub proof fn selector_matches_labels(
    owner: Seq<char>,
    component: Seq<char>,
    values: Seq<(Seq<char>, Seq<char>)>,
)
    requires
        forall|i: int|
            0 <= i < values.len() ==> (#[trigger] values[i]).0 != "owner"@ && values[i].0
                != "component"@,
    ensures
        ({
            let labels = label_map(owner, component, values);
            &&& labels.contains_key("ech.bz/owner"@)
            &&& labels.contains_key("ech.bz/component"@)
            &&& labels["ech.bz/owner"@] == owner
            &&& labels["ech.bz/component"@] == component
            &&& selector_text(owner, component) == "ech.bz/owner="@ + labels["ech.bz/owner"@]
                + ",ech.bz/component="@ + labels["ech.bz/component"@]
        }),
    decreases values.len(),
{
    reveal_strlit("ech.bz/");
    reveal_strlit("ech.bz/owner");
    reveal_strlit("ech.bz/component");
    reveal_strlit("owner");
    reveal_strlit("component");
    assert("ech.bz/owner"@.len() != "ech.bz/component"@.len());
    if values.len() > 0 {
        let rest = values.drop_last();
        assert forall|i: int| 0 <= i < rest.len() implies (#[trigger] rest[i]).0 != "owner"@
            && rest[i].0 != "component"@ by {
            assert(rest[i] == values[i]);
        }
        selector_matches_labels(owner, component, rest);
        let field = values.last().0;
        assert(values[values.len() - 1].0 == field);
        assert(label_key(field).skip(7) =~= field);
        assert("ech.bz/owner"@.skip(7) =~= "owner"@);
        assert("ech.bz/component"@.skip(7) =~= "component"@);
    }
}

/// A name is that of the owner and the component with a dash between them, and each part is added
/// behind a dash of its own.
pub proof fn parts_are_added_behind_dashes(
    owner: Seq<char>,
    component: Seq<char>,
    parts: Seq<Seq<char>>,
    part: Seq<char>,
)
    ensures
        instance_text(owner, component, Seq::empty()) == owner + "-"@ + component,
        instance_text(owner, component, parts.push(part)) == instance_text(owner, component, parts)
            + "-"@ + part,
{
    assert(parts.push(part).drop_last() =~= parts);
}

/// The texts of fields with their values are those of the strings, one for one.
pub proof fn entries_have_the_texts_of_their_strings(values: Seq<(String, String)>)
    ensures
        entry_texts(values).len() == values.len(),
        forall|i: int|
            0 <= i < values.len() ==> (#[trigger] entry_texts(values)[i]).0 == values[i].0@
                && entry_texts(values)[i].1 == values[i].1@,
{
}

/// The labels of a component are one for its owner, one for itself and one for each field, under the
/// field's name. Where fields have the same name, or that of one of the other labels, the last one
/// counts.
pub proof fn labels_are_those_of_owner_component_and_fields(
    owner: Seq<char>,
    component: Seq<char>,
    values: Seq<(Seq<char>, Seq<char>)>,
    key: Seq<char>,
)
    ensures
        ({
            let labels = label_map(owner, component, values);
            let is_field = exists|i: int|
                0 <= i < values.len() && "ech.bz/"@ + (#[trigger] values[i]).0 == key;
            &&& labels.contains_key(key) <==> key == "ech.bz/owner"@ || key == "ech.bz/component"@
                || is_field
            &&& key == "ech.bz/owner"@ && !is_field ==> labels[key] == owner
            &&& key == "ech.bz/component"@ && !is_field ==> labels[key] == component
            &&& forall|i: int|
                0 <= i < values.len() && "ech.bz/"@ + (#[trigger] values[i]).0 == key && (forall|
                    j: int,
                | i < j < values.len() ==> "ech.bz/"@ + (#[trigger] values[j]).0 != key)
                    ==> labels[key] == values[i].1
        }),
    decreases values.len(),
{
    reveal_strlit("ech.bz/owner");
    reveal_strlit("ech.bz/component");
    assert("ech.bz/owner"@.len() != "ech.bz/component"@.len());
    if values.len() > 0 {
        let rest = values.drop_last();
        let last = values.len() - 1;
        labels_are_those_of_owner_component_and_fields(owner, component, rest, key);
        assert forall|i: int| 0 <= i < last implies rest[i] == #[trigger] values[i] by {}
        assert(values[last] == values.last());
        if exists|i: int| 0 <= i < rest.len() && "ech.bz/"@ + (#[trigger] rest[i]).0 == key {
            let i = choose|i: int|
                0 <= i < rest.len() && "ech.bz/"@ + (#[trigger] rest[i]).0 == key;
            assert("ech.bz/"@ + values[i].0 == key);
        }
        if exists|i: int| 0 <= i < values.len() && "ech.bz/"@ + (#[trigger] values[i]).0 == key {
            let i = choose|i: int|
                0 <= i < values.len() && "ech.bz/"@ + (#[trigger] values[i]).0 == key;
            if i < last {
                assert("ech.bz/"@ + rest[i].0 == key);
            }
        }
        assert forall|i: int|
            0 <= i < values.len() && "ech.bz/"@ + (#[trigger] values[i]).0 == key && (forall|
                j: int,
            | i < j < values.len() ==> "ech.bz/"@ + (#[trigger] values[j]).0 != key) implies label_map(
            owner,
            component,
            values,
        )[key] == values[i].1 by {
            if i < last {
                assert("ech.bz/"@ + values[last].0 != key);
                assert("ech.bz/"@ + rest[i].0 == key);
                assert forall|j: int| i < j < rest.len() implies "ech.bz/"@ + (
                #[trigger] rest[j]).0 != key by {
                    assert("ech.bz/"@ + values[j].0 != key);
                }
            }
        }
    }
}

/// The selector asks for the two labels by the names under which they are set.
pub proof fn selectors_ask_for_owner_and_component(owner: Seq<char>, component: Seq<char>)
    ensures
        selector_text(owner, component) == "ech.bz/owner="@ + owner + ",ech.bz/component="@
            + component,
        label_key("owner"@) == "ech.bz/owner"@,
        label_key("component"@) == "ech.bz/component"@,
{
    reveal_strlit("ech.bz/");
    reveal_strlit("ech.bz/owner");
    reveal_strlit("ech.bz/component");
    reveal_strlit("owner");
    reveal_strlit("component");
    assert(label_key("owner"@) =~= "ech.bz/owner"@);
    assert(label_key("component"@) =~= "ech.bz/component"@);
}

}
