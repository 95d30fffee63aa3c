//! Stores: maps from strings to strings that are kept in config maps and secrets.
use crate::keyed::{ascending, lemma_map_of, map_of, text_map, KeyedMap, StringMap};
use crate::meta::ObjectMeta;
use crate::text::{lex_antisymmetric, lex_lt, opt_text};
use vstd::prelude::*;
use vstd::string::*;
use vstd::utf8::{decode_utf8, encode_utf8, valid_utf8};

verus! {

/// What `String::from_utf8` says of bytes that are not UTF-8, in words.
pub uninterp spec fn utf8_error_text(bytes: Seq<u8>) -> Seq<char>;

/// `String::from_utf8`, and the message of its error. It reads bytes that are valid UTF-8 as
/// the text that they encode, and refuses all others with a message that depends on the bytes
/// alone.
#[verifier::external_body]
fn text_from_utf8(bytes: Vec<u8>) -> (r: Result<String, String>)
    ensures
        match r {
            Ok(text) => valid_utf8(bytes@) && text@ == decode_utf8(bytes@),
            Err(message) => !valid_utf8(bytes@) && message@ == utf8_error_text(bytes@),
        },
{
    String::from_utf8(bytes).map_err(|err| err.to_string())
}

/// A config map, as far as a store goes.
#[derive(Debug)]
pub struct ConfigMap {
    pub metadata: ObjectMeta,
    pub data: Option<StringMap>,
}

/// A secret, as far as a store goes. What is put into it is text; what is found in it is bytes.
#[derive(Debug)]
pub struct Secret {
    pub metadata: ObjectMeta,
    pub string_data: Option<StringMap>,
    pub data: Option<KeyedMap<Vec<u8>>>,
    pub type_: Option<String>,
}

/// Why a store cannot be used.
#[derive(Debug)]
pub enum StoreError {
    /// The handle is not one for a namespace.
    NotNamespaced,
    /// The config map of this name holds nothing.
    EmptyConfigMap(String),
    /// The secret of this name holds nothing.
    EmptySecret(String),
    /// What a secret holds under a key is not UTF-8.
    NotUtf8 { name: String, key: String, reason: String },
    /// A store holds nothing under a key.
    MissingKey { store: String, key: String },
}

/// The value of a store error.
pub enum StoreErrorView {
    NotNamespaced,
    EmptyConfigMap(Seq<char>),
    EmptySecret(Seq<char>),
    NotUtf8 { name: Seq<char>, key: Seq<char>, reason: Seq<char> },
    MissingKey { store: Seq<char>, key: Seq<char> },
}

impl View for StoreError {
    type V = StoreErrorView;

    open spec fn view(&self) -> StoreErrorView {
        match *self {
            StoreError::NotNamespaced => StoreErrorView::NotNamespaced,
            StoreError::EmptyConfigMap(name) => StoreErrorView::EmptyConfigMap(name@),
            StoreError::EmptySecret(name) => StoreErrorView::EmptySecret(name@),
            StoreError::NotUtf8 { name, key, reason } => StoreErrorView::NotUtf8 {
                name: name@,
                key: key@,
                reason: reason@,
            },
            StoreError::MissingKey { store, key } => StoreErrorView::MissingKey {
                store: store@,
                key: key@,
            },
        }
    }
}

impl StoreErrorView {
    /// The text of the error's message.
    pub open spec fn text(self) -> Seq<char> {
        match self {
            StoreErrorView::NotNamespaced => "store requires a namespaced handle"@,
            StoreErrorView::EmptyConfigMap(name) => "config map "@ + name + " has no data"@,
            StoreErrorView::EmptySecret(name) => "secret "@ + name + " has no data"@,
            StoreErrorView::NotUtf8 { name, key, reason } => "secret "@ + name + " key "@ + key
                + " is not valid UTF-8: "@ + reason,
            StoreErrorView::MissingKey { store, key } => "store "@ + store + " missing key "@ + key,
        }
    }
}

impl StoreError {
    /// The error's message.
    pub fn message(&self) -> (r: String)
        ensures
            r@ == self@.text(),
    {
        let mut text = String::new();
        match self {
            StoreError::NotNamespaced => {
                text.append("store requires a namespaced handle");
            },
            StoreError::EmptyConfigMap(name) => {
                text.append("config map ");
                text.append(name.as_str());
                text.append(" has no data");
            },
            StoreError::EmptySecret(name) => {
                text.append("secret ");
                text.append(name.as_str());
                text.append(" has no data");
            },
            StoreError::NotUtf8 { name, key, reason } => {
                text.append("secret ");
                text.append(name.as_str());
                text.append(" key ");
                text.append(key.as_str());
                text.append(" is not valid UTF-8: ");
                text.append(reason.as_str());
            },
            StoreError::MissingKey { store, key } => {
                text.append("store ");
                text.append(store.as_str());
                text.append(" missing key ");
                text.append(key.as_str());
            },
        }
        proof {
            assert(text@ =~= self@.text());
        }
        text
    }
}

/// Whether these are the metadata of an object with a name, a namespace and labels, and nothing
/// else.
pub open spec fn is_metadata(
    meta: ObjectMeta,
    name: Seq<char>,
    namespace: Seq<char>,
    labels: StringMap,
) -> bool {
    &&& opt_text(meta.name) == Some(name)
    &&& opt_text(meta.namespace) == Some(namespace)
    &&& meta.labels == Some(labels)
    &&& meta.generate_name is None
    &&& meta.generation is None
}

/// The metadata of an object that is put into a namespace.
pub fn metadata(name: &str, namespace: &str, labels: StringMap) -> (meta: ObjectMeta)
    ensures
        is_metadata(meta, name@, namespace@, labels),
        meta.name matches Some(text) && text@ == name@,
        meta.namespace matches Some(text) && text@ == namespace@,
        meta.labels == Some(labels),
        meta.generate_name is None,
        meta.generation is None,
{
    ObjectMeta {
        name: Some(name.to_string()),
        generate_name: None,
        namespace: Some(namespace.to_string()),
        labels: Some(labels),
        generation: None,
    }
}

/// A store that was loaded.
#[derive(Debug)]
pub struct StoreHandle {
    name: String,
    data: StringMap,
}

impl StoreHandle {
    /// The name of the object that the store is kept in.
    pub closed spec fn name(self) -> Seq<char> {
        self.name@
    }

    /// What the store holds.
    pub closed spec fn data(self) -> Map<Seq<char>, Seq<char>> {
        text_map(self.data@)
    }

    /// What the store holds under a key.
    pub fn get(&self, key: &str) -> (r: Result<&str, StoreError>)
        ensures
            match r {
                Ok(value) => self.data().contains_key(key@) && value@ == self.data()[key@],
                Err(error) => !self.data().contains_key(key@) && error@
                    == (StoreErrorView::MissingKey { store: self.name(), key: key@ }),
            },
            r matches Err(error) ==> (error matches StoreError::MissingKey { store, key: missing }
                && store@ == self.name() && missing@ == key@),
    {
        match self.data.get(key) {
            Some(value) => Ok(value.as_str()),
            None => Err(
                StoreError::MissingKey { store: self.name.clone(), key: key.to_string() },
            ),
        }
    }
}

/// An object that can keep a store.
pub trait StoreExt: Sized {
    /// The object that keeps `data`.
    fn store_put(
        namespace: Option<&str>,
        name: &str,
        labels: StringMap,
        data: StringMap,
    ) -> Result<Self, StoreError>;

    /// The store that the object of the given name keeps.
    fn store_load(self, name: &str) -> Result<StoreHandle, StoreError>;
}

impl ConfigMap {
    /// Whether this is the config map that keeps `data`.
    pub open spec fn keeps(
        self,
        name: Seq<char>,
        namespace: Seq<char>,
        labels: StringMap,
        data: StringMap,
    ) -> bool {
        &&& is_metadata(self.metadata, name, namespace, labels)
        &&& self.data == Some(data)
    }

    /// Whether `loaded` is what loading the store from this config map gives.
    pub open spec fn loads(self, name: Seq<char>, loaded: Result<StoreHandle, StoreError>) -> bool {
        match (self.data, loaded) {
            (Some(data), Ok(handle)) => {
                &&& handle.name() == name
                &&& handle.data() == text_map(data@)
            },
            (None, Err(error)) => error@ == StoreErrorView::EmptyConfigMap(name),
            _ => false,
        }
    }
}

impl StoreExt for ConfigMap {
    fn store_put(
        namespace: Option<&str>,
        name: &str,
        labels: StringMap,
        data: StringMap,
    ) -> (r: Result<Self, StoreError>)
        ensures
            match namespace {
                Some(namespace) => {
                    &&& r is Ok
                    &&& r->Ok_0.keeps(name@, namespace@, labels, data)
                    &&& r->Ok_0.metadata.labels == Some(labels)
                    &&& r->Ok_0.metadata.name matches Some(text) && text@ == name@
                    &&& r->Ok_0.metadata.namespace matches Some(text) && text@ == namespace@
                    &&& r->Ok_0.metadata.generate_name is None
                    &&& r->Ok_0.metadata.generation is None
                    &&& r->Ok_0.data == Some(data)
                },
                None => {
                    &&& r is Err
                    &&& r->Err_0 is NotNamespaced
                    &&& r->Err_0@ == StoreErrorView::NotNamespaced
                },
            },
    {
        match namespace {
            Some(namespace) => Ok(
                ConfigMap { metadata: metadata(name, namespace, labels), data: Some(data) },
            ),
            None => Err(StoreError::NotNamespaced),
        }
    }

    fn store_load(self, name: &str) -> (r: Result<StoreHandle, StoreError>)
        ensures
            self.loads(name@, r),
    {
        match self.data {
            Some(data) => Ok(StoreHandle { name: name.to_string(), data }),
            None => Err(StoreError::EmptyConfigMap(name.to_string())),
        }
    }
}

/// Whether bytes under every key are UTF-8.
pub open spec fn all_utf8(raw: Map<Seq<char>, Vec<u8>>) -> bool {
    forall|key: Seq<char>| #[trigger] raw.contains_key(key) ==> valid_utf8(raw[key]@)
}

/// Whether `key` is the first key under which the bytes are not UTF-8.
pub open spec fn first_not_utf8(raw: Map<Seq<char>, Vec<u8>>, key: Seq<char>) -> bool {
    &&& raw.contains_key(key)
    &&& !valid_utf8(raw[key]@)
    &&& forall|other: Seq<char>| #[trigger]
        raw.contains_key(other) && lex_lt(other, key) ==> valid_utf8(raw[other]@)
}

/// The texts that the bytes under each key encode.
pub open spec fn decoded(raw: Map<Seq<char>, Vec<u8>>) -> Map<Seq<char>, Seq<char>> {
    raw.map_values(|bytes: Vec<u8>| decode_utf8(bytes@))
}

impl Secret {
    /// Whether this is the secret that keeps `data`.
    pub open spec fn keeps(
        self,
        name: Seq<char>,
        namespace: Seq<char>,
        labels: StringMap,
        data: StringMap,
    ) -> bool {
        &&& is_metadata(self.metadata, name, namespace, labels)
        &&& self.string_data == Some(data)
        &&& self.data is None
        &&& opt_text(self.type_) == Some("Opaque"@)
    }

    /// Whether `loaded` is what loading the store from this secret gives.
    pub open spec fn loads(self, name: Seq<char>, loaded: Result<StoreHandle, StoreError>) -> bool {
        match (self.data, loaded) {
            (Some(raw), Ok(handle)) => {
                &&& all_utf8(raw@)
                &&& handle.name() == name
                &&& handle.data() == decoded(raw@)
            },
            (Some(raw), Err(StoreError::NotUtf8 { name: n, key, reason })) => {
                &&& n@ == name
                &&& first_not_utf8(raw@, key@)
                &&& reason@ == utf8_error_text(raw@[key@]@)
            },
            (None, Err(error)) => error@ == StoreErrorView::EmptySecret(name),
            _ => false,
        }
    }
}

impl StoreExt for Secret {
    fn store_put(
        namespace: Option<&str>,
        name: &str,
        labels: StringMap,
        data: StringMap,
    ) -> (r: Result<Self, StoreError>)
        ensures
            match namespace {
                Some(namespace) => {
                    &&& r is Ok
                    &&& r->Ok_0.keeps(name@, namespace@, labels, data)
                    &&& r->Ok_0.metadata.labels == Some(labels)
                    &&& r->Ok_0.metadata.name matches Some(text) && text@ == name@
                    &&& r->Ok_0.metadata.namespace matches Some(text) && text@ == namespace@
                    &&& r->Ok_0.metadata.generate_name is None
                    &&& r->Ok_0.metadata.generation is None
                    &&& r->Ok_0.string_data == Some(data)
                    &&& r->Ok_0.data is None
                    &&& r->Ok_0.type_ matches Some(text) && text@ == "Opaque"@
                },
                None => {
                    &&& r is Err
                    &&& r->Err_0 is NotNamespaced
                    &&& r->Err_0@ == StoreErrorView::NotNamespaced
                },
            },
    {
        match namespace {
            Some(namespace) => Ok(
                Secret {
                    metadata: metadata(name, namespace, labels),
                    string_data: Some(data),
                    data: None,
                    type_: Some("Opaque".to_string()),
                },
            ),
            None => Err(StoreError::NotNamespaced),
        }
    }

    fn store_load(self, name: &str) -> (r: Result<StoreHandle, StoreError>)
        ensures
            self.loads(name@, r),
    {
        let raw = match self.data {
            Some(raw) => raw,
            None => return Err(StoreError::EmptySecret(name.to_string())),
        };
        let ghost items = raw.items();
        proof {
            use_type_invariant(&raw);
            raw.lemma_items();
            lemma_map_of(items);
        }
        let mut data = StringMap::new();
        let mut i: usize = 0;
        proof {
            assert(text_map(data@) =~= decoded(map_of(items.take(0))));
        }
        while i < raw.len()
            invariant
                items == raw.items(),
                ascending(items),
                raw@ == map_of(items),
                i <= items.len(),
                text_map(data@) == decoded(map_of(items.take(i as int))),
                forall|k: int| 0 <= k < i ==> valid_utf8((#[trigger] items[k]).1@),
                self.data == Some(raw),
            decreases items.len() - i,
        {
            let entry = raw.entry(i);
            let bytes = entry.1.clone();
            proof {
                assert(bytes@ =~= items[i as int].1@);
            }
            match text_from_utf8(bytes) {
                Ok(text) => {
                    let ghost before = data@;
                    data.insert(entry.0.clone(), text);
                    proof {
                        let next = items.take(i + 1);
                        assert(next.drop_last() =~= items.take(i as int));
                        assert(text_map(data@) =~= text_map(before).insert(
                            items[i as int].0@,
                            text@,
                        ));
                        assert(decoded(map_of(next)) =~= decoded(
                            map_of(items.take(i as int)),
                        ).insert(items[i as int].0@, text@));
                    }
                },
                Err(reason) => {
                    proof {
                        lemma_first_not_utf8(items, i as int);
                    }
                    return Err(
                        StoreError::NotUtf8 { name: name.to_string(), key: entry.0.clone(), reason },
                    );
                },
            }
            i = i + 1;
        }
        proof {
            assert(items.take(i as int) =~= items);
            lemma_map_of(items);
        }
        Ok(StoreHandle { name: name.to_string(), data })
    }
}

/// The first entry in the order of the keys whose bytes are not UTF-8 has the first such key.
proof fn lemma_first_not_utf8(items: Seq<(String, Vec<u8>)>, i: int)
    requires
        ascending(items),
        0 <= i < items.len(),
        !valid_utf8(items[i].1@),
        forall|k: int| 0 <= k < i ==> valid_utf8((#[trigger] items[k]).1@),
    ensures
        first_not_utf8(map_of(items), items[i].0@),
        map_of(items)[items[i].0@] == items[i].1,
{
    lemma_map_of(items);
    let raw = map_of(items);
    let key = items[i].0@;
    assert(raw.contains_key(key));
    assert forall|other: Seq<char>| #[trigger] raw.contains_key(other) && lex_lt(
        other,
        key,
    ) implies valid_utf8(raw[other]@) by {
        let k = choose|k: int| 0 <= k < items.len() && (#[trigger] items[k]).0@ == other;
        if k > i {
            assert(lex_lt(items[i].0@, items[k].0@));
            lex_antisymmetric(other, key);
        }
    }
}

/// What is put into a config map is found when it is loaded, and nothing else.
pub proof fn config_map_gives_back_what_was_put(
    stored: ConfigMap,
    name: Seq<char>,
    namespace: Seq<char>,
    labels: StringMap,
    data: StringMap,
    loaded: Result<StoreHandle, StoreError>,
)
    requires
        stored.keeps(name, namespace, labels, data),
        stored.loads(name, loaded),
    ensures
        loaded is Ok,
        loaded->Ok_0.name() == name,
        loaded->Ok_0.data() == text_map(data@),
{
}

/// Whether bytes under each key are the UTF-8 encoding of the text under it.
pub open spec fn encodes(
    raw: Map<Seq<char>, Vec<u8>>,
    data: Map<Seq<char>, Seq<char>>,
) -> bool {
    &&& raw.dom() == data.dom()
    &&& forall|key: Seq<char>| #[trigger]
        raw.contains_key(key) ==> raw[key]@ == encode_utf8(data[key])
}

/// What is put into a secret is found when it is loaded, once its texts are kept as their UTF-8
/// encodings.
pub proof fn secret_gives_back_what_was_put(
    put: Secret,
    stored: Secret,
    name: Seq<char>,
    namespace: Seq<char>,
    labels: StringMap,
    data: StringMap,
    loaded: Result<StoreHandle, StoreError>,
)
    requires
        put.keeps(name, namespace, labels, data),
        stored.data is Some,
        encodes(stored.data->Some_0@, text_map(put.string_data->Some_0@)),
        stored.loads(name, loaded),
    ensures
        loaded is Ok,
        loaded->Ok_0.name() == name,
        loaded->Ok_0.data() == text_map(data@),
{
    let raw = stored.data->Some_0@;
    let texts = text_map(data@);
    assert forall|key: Seq<char>| #[trigger] raw.contains_key(key) implies valid_utf8(raw[key]@)
        && decode_utf8(raw[key]@) == texts[key] by {
        vstd::utf8::encode_utf8_valid_utf8(texts[key]);
        vstd::utf8::encode_utf8_decode_utf8(texts[key]);
    }
    assert(decoded(raw) =~= texts);
}

/// A config map that keeps a store carries the labels, the name, the namespace and the data that
/// were passed, and nothing else.
pub proof fn config_maps_carry_what_was_passed(
    stored: ConfigMap,
    name: Seq<char>,
    namespace: Seq<char>,
    labels: StringMap,
    data: StringMap,
)
    requires
        stored.keeps(name, namespace, labels, data),
    ensures
        stored.metadata.labels == Some(labels),
        stored.metadata.name is Some,
        stored.metadata.name->Some_0@ == name,
        stored.metadata.namespace is Some,
        stored.metadata.namespace->Some_0@ == namespace,
        stored.metadata.generate_name is None,
        stored.metadata.generation is None,
        stored.data == Some(data),
{
}

/// A secret that keeps a store carries the labels, the name, the namespace and, as text, the data
/// that were passed, and is an opaque one.
pub proof fn secrets_carry_what_was_passed(
    stored: Secret,
    name: Seq<char>,
    namespace: Seq<char>,
    labels: StringMap,
    data: StringMap,
)
    requires
        stored.keeps(name, namespace, labels, data),
    ensures
        stored.metadata.labels == Some(labels),
        stored.metadata.name is Some,
        stored.metadata.name->Some_0@ == name,
        stored.metadata.namespace is Some,
        stored.metadata.namespace->Some_0@ == namespace,
        stored.metadata.generate_name is None,
        stored.metadata.generation is None,
        stored.string_data == Some(data),
        stored.data is None,
        stored.type_ is Some,
        stored.type_->Some_0@ == "Opaque"@,
{
}

/// A store is loaded from a config map if and only if that holds data; it has the object's name,
/// and under each key what the config map holds under it.
pub proof fn config_maps_are_loaded_as_they_are(
    stored: ConfigMap,
    name: Seq<char>,
    loaded: Result<StoreHandle, StoreError>,
    key: Seq<char>,
)
    requires
        stored.loads(name, loaded),
    ensures
        loaded is Ok <==> stored.data is Some,
        loaded matches Ok(handle) ==> {
            let data = stored.data->Some_0@;
            &&& handle.name() == name
            &&& handle.data().contains_key(key) <==> data.contains_key(key)
            &&& data.contains_key(key) ==> handle.data()[key] == data[key]@
        },
        loaded matches Err(error) ==> error is EmptyConfigMap && error->EmptyConfigMap_0@ == name,
{
}

/// A store is loaded from a secret if and only if that holds bytes under its keys that are all
/// UTF-8; under each key it then has the text that is encoded as these bytes.
pub proof fn secrets_are_loaded_as_text(
    stored: Secret,
    name: Seq<char>,
    loaded: Result<StoreHandle, StoreError>,
    key: Seq<char>,
)
    requires
        stored.loads(name, loaded),
    ensures
        loaded is Ok ==> stored.data is Some,
        loaded matches Ok(handle) ==> {
            let data = stored.data->Some_0@;
            &&& handle.name() == name
            &&& handle.data().contains_key(key) <==> data.contains_key(key)
            &&& data.contains_key(key) ==> valid_utf8(data[key]@) && encode_utf8(
                handle.data()[key],
            ) == data[key]@
        },
        stored.data is None ==> loaded is Err && loaded->Err_0 is EmptySecret
            && loaded->Err_0->EmptySecret_0@ == name,
        loaded matches Err(error) ==> (stored.data matches Some(data) ==> {
            &&& error matches StoreError::NotUtf8 { name: store, key: first, reason }
            &&& store@ == name
            &&& data@.contains_key(first@)
            &&& !valid_utf8(data@[first@]@)
            &&& reason@ == utf8_error_text(data@[first@]@)
            &&& data@.contains_key(key) && lex_lt(key, first@) ==> valid_utf8(data@[key]@)
        }),
{
    if loaded is Ok && stored.data->Some_0@.contains_key(key) {
        vstd::utf8::decode_utf8_encode_utf8(stored.data->Some_0@[key]@);
    }
}

/// The messages of the errors of a store name the object, and the key where one is to blame.
pub proof fn store_messages_name_the_object(error: StoreError)
    ensures
        match error {
            StoreError::NotNamespaced => error@.text() == "store requires a namespaced handle"@,
            StoreError::EmptyConfigMap(name) => error@.text() == "config map "@ + name@
                + " has no data"@,
            StoreError::EmptySecret(name) => error@.text() == "secret "@ + name@ + " has no data"@,
            StoreError::NotUtf8 { name, key, reason } => error@.text() == "secret "@ + name@
                + " key "@ + key@ + " is not valid UTF-8: "@ + reason@,
            StoreError::MissingKey { store, key } => error@.text() == "store "@ + store@
                + " missing key "@ + key@,
        },
{
}

}
