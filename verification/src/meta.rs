//! The metadata of Kubernetes objects.
use crate::keyed::StringMap;
use crate::text::opt_text;
use vstd::prelude::*;

verus! {

/// What the library reads and writes of an object's metadata.
#[derive(Debug)]
pub struct ObjectMeta {
    pub name: Option<String>,
    pub generate_name: Option<String>,
    pub namespace: Option<String>,
    pub labels: Option<StringMap>,
    pub generation: Option<i64>,
}

/// What a custom resource lacks.
#[derive(Clone, Copy, Debug, PartialEq, Eq, Structural)]
pub enum CrMetaError {
    MissingNamespace,
    MissingName,
}

impl CrMetaError {
    /// The text of the error's message.
    pub open spec fn text(self) -> Seq<char> {
        match self {
            CrMetaError::MissingNamespace => "CR is missing required metadata field: namespace"@,
            CrMetaError::MissingName => "CR is missing required metadata field: name"@,
        }
    }

    /// The error's message.
    pub fn message(&self) -> (r: String)
        ensures
            r@ == self.text(),
    {
        match self {
            CrMetaError::MissingNamespace => "CR is missing required metadata field: namespace",
            CrMetaError::MissingName => "CR is missing required metadata field: name",
        }.to_string()
    }
}

/// The namespace and the name of a custom resource.
pub trait CrMeta {
    fn cr_ns(&self) -> Result<String, CrMetaError>;

    fn cr_name(&self) -> Result<String, CrMetaError>;
}

impl CrMeta for ObjectMeta {
    fn cr_ns(&self) -> (r: Result<String, CrMetaError>)
        ensures
            match r {
                Ok(ns) => opt_text(self.namespace) == Some(ns@) && (self.namespace matches Some(
                    namespace,
                ) && namespace@ == ns@),
                Err(error) => self.namespace is None && error == CrMetaError::MissingNamespace,
            },
    {
        match &self.namespace {
            Some(ns) => Ok(ns.clone()),
            None => Err(CrMetaError::MissingNamespace),
        }
    }

    fn cr_name(&self) -> (r: Result<String, CrMetaError>)
        ensures
            match r {
                Ok(name) => opt_text(self.name) == Some(name@) && (self.name matches Some(own)
                    && own@ == name@),
                Err(error) => self.name is None && error == CrMetaError::MissingName,
            },
    {
        match &self.name {
            Some(name) => Ok(name.clone()),
            None => Err(CrMetaError::MissingName),
        }
    }
}

impl ObjectMeta {
    /// The name by which an object is known: its name, else the prefix that its name is
    /// generated from, else nothing.
    pub open spec fn any_name(self) -> Seq<char> {
        match (self.name, self.generate_name) {
            (Some(name), _) => name@,
            (None, Some(prefix)) => prefix@,
            (None, None) => Seq::empty(),
        }
    }

    /// The name by which an object is known.
    pub fn name_any(&self) -> (r: String)
        ensures
            r@ == self.any_name(),
    {
        match &self.name {
            Some(name) => name.clone(),
            None => match &self.generate_name {
                Some(prefix) => prefix.clone(),
                None => String::new(),
            },
        }
    }
}

/// The messages name the field that is missing.
pub proof fn messages_name_the_missing_field()
    ensures
        CrMetaError::MissingNamespace.text() == "CR is missing required metadata field: namespace"@,
        CrMetaError::MissingName.text() == "CR is missing required metadata field: name"@,
{
}

/// An object is known by its name where it has one, else by the prefix of its name, else by
/// nothing.
pub proof fn objects_are_known_by_name_or_prefix(meta: ObjectMeta)
    ensures
        meta.name matches Some(name) ==> meta.any_name() == name@,
        meta.name is None ==> (meta.generate_name matches Some(prefix) ==> meta.any_name()
            == prefix@),
        meta.name is None && meta.generate_name is None ==> meta.any_name().len() == 0,
{
}

}
