use ech_k8s::component::{append_value, instance_prefix, labels, meta_error_message, selector};
use ech_k8s::derive::{
    component_name, expand_component, field_has_component_param, find_component_name,
    has_component_bound, read_attributes, Accessor, Attribute, ComponentInput, ComponentPlan, Data, DeriveError, Field, FieldKind,
    Fields, GenericParam, Meta,
};
use ech_k8s::ReconcilerMetaError;
use syn::parse::Parser;

fn word(text: &str) -> Option<String> {
    Some(text.to_string())
}

fn attr(path: &str, args: Result<Meta, &'static str>) -> Attribute<&'static str> {
    Attribute { path: word(path), args }
}

fn name_value(path: &str, text: Option<&str>) -> Result<Meta, &'static str> {
    Ok(Meta::NameValue { path: word(path), text: text.map(String::from) })
}

/// A path, word by word.
fn path(text: &str) -> Option<Vec<String>> {
    Some(text.split("::").map(String::from).collect())
}

fn named(ident: &str, ty: &str) -> Field {
    Field { ident: word(ident), ty: path(ty) }
}

fn attributes(text: &str) -> Vec<syn::Attribute> {
    syn::Attribute::parse_outer.parse_str(text).unwrap()
}

fn param(ident: &str, bounds: &[Option<&str>]) -> GenericParam {
    GenericParam::Type {
        ident: ident.to_string(),
        bounds: bounds.iter().map(|b| b.and_then(path)).collect(),
    }
}

fn input(data: Data) -> ComponentInput<&'static str> {
    ComponentInput {
        attrs: vec![attr("component", name_value("name", Some("web")))],
        params: vec![
            GenericParam::Other,
            param("C", &[Some("Clone"), Some("ech_k8s::Component")]),
            param("T", &[None, Some("Display")]),
        ],
        data,
    }
}

fn steps(plan: &ComponentPlan) -> Vec<(FieldKind, &Accessor)> {
    plan.steps.iter().map(|s| (s.kind, &s.accessor)).collect()
}

#[test]
fn name_comes_from_the_first_attribute_that_gives_one() {
    let attrs = vec![
        attr("derive", Err("unreadable, but of no concern")),
        Attribute { path: None, args: name_value("name", Some("elsewhere")) },
        attr("component", Ok(Meta::Other)),
        attr("component", name_value("title", Some("no name"))),
        attr("component", name_value("name", None)),
        attr("component", name_value("name", Some("web"))),
        attr("component", name_value("name", Some("late"))),
        attr("component", Err("never read")),
    ];
    assert_eq!(component_name(attrs).unwrap(), "web");
}

#[test]
fn name_is_found_among_the_attributes_of_an_item() {
    let attrs = attributes(
        "#[derive(Clone)] #[component(title = \"no\")] #[component(name = 3)] \
         #[other::component(name = \"elsewhere\")] #[component(name = \"web\")]",
    );
    assert_eq!(find_component_name(&attrs).unwrap(), "web");
    let read = read_attributes(&attrs);
    assert_eq!(read.len(), 5);
    assert_eq!(read[0].path, word("derive"));
    assert_eq!(read[3].path, None);
    assert!(matches!(&read[0].args, Ok(Meta::Other)));
    match &read[4].args {
        Ok(Meta::NameValue { path, text }) => {
            assert_eq!(*path, word("name"));
            assert_eq!(*text, word("web"));
        }
        _ => panic!("no name and value"),
    }
    assert!(matches!(find_component_name(&vec![]), Err(DeriveError::MissingName)));
}

#[test]
fn attribute_without_arguments_cannot_be_read() {
    let attrs = attributes("#[component] #[component(name = \"web\")]");
    match find_component_name(&attrs) {
        Err(DeriveError::Unreadable(error)) => {
            let expected = attrs[0].parse_args::<syn::Meta>().unwrap_err();
            assert_eq!(error.to_string(), expected.to_string());
        }
        _ => panic!("the attribute was passed over"),
    }
}

#[test]
fn unreadable_attribute_is_reported() {
    let attrs = vec![attr("component", Err("expected `=`")), attr("component", name_value("name", Some("web")))];
    match component_name(attrs) {
        Err(error @ DeriveError::Unreadable("expected `=`")) => assert_eq!(error.message(), None),
        _ => panic!("the attribute was passed over"),
    }
}

#[test]
fn component_needs_a_name() {
    let error = component_name::<&str>(vec![]).unwrap_err();
    assert_eq!(error.message(), Some("missing #[component(name = \"...\")] attribute"));
    let mut nameless = input(Data::Other);
    nameless.attrs.clear();
    assert!(matches!(expand_component(nameless), Err(DeriveError::MissingName)));
}

#[test]
fn component_is_a_struct() {
    let error = expand_component(input(Data::Other)).unwrap_err();
    assert_eq!(error.message(), Some("Component can only be derived for structs"));
}

#[test]
fn bounds_and_fields_are_matched_by_their_last_word() {
    assert!(has_component_bound(&vec![None, path("Component")]));
    assert!(has_component_bound(&vec![path("ech_k8s::Component")]));
    assert!(!has_component_bound(&vec![None, path("Comp")]));
    assert!(!has_component_bound(&vec![path("Component::Other"), Some(vec![])]));
    assert!(!has_component_bound(&vec![]));
    let params = vec!["C".to_string()];
    assert!(field_has_component_param(&path("C"), &params));
    assert!(field_has_component_param(&path("inner::C"), &params));
    assert!(!field_has_component_param(&path("T"), &params));
    assert!(!field_has_component_param(&None, &params));
}

#[test]
fn named_fields_become_steps_and_labels() {
    let plan = expand_component(input(Data::Struct(Fields::Named(vec![
        named("tier", "String"),
        named("parent", "C"),
        Field { ident: None, ty: path("String") },
        named("size", "T"),
        Field { ident: word("opaque"), ty: None },
    ]))))
    .unwrap();
    assert_eq!(plan.name, "web");
    let accessor = |ident: &str| Accessor::Named(ident.to_string());
    assert_eq!(
        steps(&plan),
        [
            (FieldKind::Value, &accessor("tier")),
            (FieldKind::Comp, &accessor("parent")),
            (FieldKind::Value, &accessor("size")),
            (FieldKind::Value, &accessor("opaque")),
        ]
    );
    let expected = ["tier", "size", "opaque"].map(|l| (l.to_string(), accessor(l)));
    assert_eq!(plan.labels, expected);
}

#[test]
fn unnamed_fields_are_known_by_their_position() {
    let field = |ty: &str| Field { ident: None, ty: path(ty) };
    let mut types: Vec<Field> = vec![field("String"), field("C")];
    types.extend((0..9).map(|_| field("u8")));
    let plan = expand_component(input(Data::Struct(Fields::Unnamed(types)))).unwrap();
    assert_eq!(plan.steps.len(), 11);
    assert_eq!(plan.steps[1].kind, FieldKind::Comp);
    assert_eq!(plan.steps[10].accessor, Accessor::Index(10));
    assert_eq!(plan.labels.len(), 10);
    assert_eq!(plan.labels[0], ("0".to_string(), Accessor::Index(0)));
    assert_eq!(plan.labels[1], ("2".to_string(), Accessor::Index(2)));
    assert_eq!(plan.labels[9], ("10".to_string(), Accessor::Index(10)));
}

#[test]
fn unit_struct_has_no_fields() {
    let plan = expand_component(input(Data::Struct(Fields::Unit))).unwrap();
    assert_eq!(plan.name, "web");
    assert!(plan.steps.is_empty());
    assert!(plan.labels.is_empty());
}

#[test]
fn instance_name_is_owner_component_and_values() {
    let name = instance_prefix("me", "web");
    assert_eq!(name, "me-web");
    let name = append_value(name, "front");
    assert_eq!(append_value(name, "3"), "me-web-front-3");
    assert!(instance_prefix("", "").starts_with('-'));
}

#[test]
fn inner_component_takes_the_name_so_far_as_its_owner() {
    let outer = append_value(instance_prefix("me", "web"), "front");
    let inner = append_value(instance_prefix(&outer, "cache"), "lru");
    assert_eq!(append_value(inner, "3"), "me-web-front-cache-lru-3");
}

#[test]
fn labels_hold_owner_component_and_values() {
    let values = vec![("tier".to_string(), "front".to_string()), ("0".to_string(), "x".to_string())];
    let labels = labels("me", "web", &values);
    let entries = labels.into_entries();
    let entries: Vec<(&str, &str)> = entries.iter().map(|e| (e.0.as_str(), e.1.as_str())).collect();
    assert_eq!(
        entries,
        [
            ("ech.bz/0", "x"),
            ("ech.bz/component", "web"),
            ("ech.bz/owner", "me"),
            ("ech.bz/tier", "front"),
        ]
    );
}

#[test]
fn selector_asks_for_the_labels_of_a_component() {
    let labels = labels("me", "web", &vec![("tier".to_string(), "front".to_string())]);
    let expected = format!(
        "ech.bz/owner={},ech.bz/component={}",
        labels.get("ech.bz/owner").unwrap(),
        labels.get("ech.bz/component").unwrap()
    );
    assert_eq!(selector("me", "web"), expected);
    assert_eq!(expected, "ech.bz/owner=me,ech.bz/component=web");
}

#[test]
fn field_called_owner_takes_the_label_of_the_owner() {
    let labels = labels("me", "web", &vec![("owner".to_string(), "you".to_string())]);
    assert_eq!(labels.get("ech.bz/owner").map(String::as_str), Some("you"));
    assert_eq!(labels.len(), 2);
}

#[test]
fn serialisation_error_is_kept() {
    let cause = serde_json::from_str::<u8>("x").unwrap_err();
    let text = cause.to_string();
    let error = ReconcilerMetaError::from(cause);
    assert_eq!(error.source().to_string(), text);
    assert_eq!(error.message(), format!("failed to serialize for component meta: {text}"));
    assert_eq!(meta_error_message("x"), "failed to serialize for component meta: x");
}
