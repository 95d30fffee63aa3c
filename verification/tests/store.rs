use ech_k8s::keyed::{KeyedMap, StringMap};
use ech_k8s::store::{metadata, ConfigMap, Secret, StoreError};
use ech_k8s::{StoreExt, StoreHandle};

fn map(entries: &[(&str, &str)]) -> StringMap {
    let mut map = StringMap::new();
    for (key, value) in entries {
        map.insert(key.to_string(), value.to_string());
    }
    map
}

fn bytes(entries: &[(&str, &[u8])]) -> KeyedMap<Vec<u8>> {
    let mut map = KeyedMap::new();
    for (key, value) in entries {
        map.insert(key.to_string(), value.to_vec());
    }
    map
}

fn found(entries: &[(&str, &[u8])]) -> Secret {
    Secret {
        metadata: metadata("s", "ns", StringMap::new()),
        string_data: None,
        data: Some(bytes(entries)),
        type_: Some("Opaque".to_string()),
    }
}

fn message(r: Result<StoreHandle, StoreError>) -> String {
    match r {
        Ok(_) => panic!("loaded"),
        Err(error) => error.message(),
    }
}

#[test]
fn metadata_holds_name_namespace_and_labels() {
    let meta = metadata("cfg", "ns", map(&[("app", "x")]));
    assert_eq!(meta.name.as_deref(), Some("cfg"));
    assert_eq!(meta.namespace.as_deref(), Some("ns"));
    assert_eq!(meta.generate_name, None);
    assert_eq!(meta.generation, None);
    assert_eq!(meta.labels.unwrap().get("app").map(String::as_str), Some("x"));
}

#[test]
fn config_map_round_trip() {
    let stored =
        ConfigMap::store_put(Some("ns"), "cfg", map(&[("app", "x")]), map(&[("k", "v"), ("l", "")]))
            .unwrap();
    assert_eq!(stored.metadata.name.as_deref(), Some("cfg"));
    assert_eq!(stored.metadata.namespace.as_deref(), Some("ns"));
    let handle = stored.store_load("cfg").unwrap();
    assert_eq!(handle.get("k").unwrap(), "v");
    assert_eq!(handle.get("l").unwrap(), "");
    assert_eq!(handle.get("m").unwrap_err().message(), "store cfg missing key m");
}

#[test]
fn store_needs_a_namespace() {
    let config_map = ConfigMap::store_put(None, "cfg", map(&[]), map(&[]));
    let secret = Secret::store_put(None, "cfg", map(&[]), map(&[]));
    assert_eq!(config_map.unwrap_err().message(), "store requires a namespaced handle");
    assert_eq!(secret.unwrap_err().message(), "store requires a namespaced handle");
}

#[test]
fn config_map_without_data_is_refused() {
    let empty = ConfigMap { metadata: metadata("cfg", "ns", map(&[])), data: None };
    assert_eq!(message(empty.store_load("cfg")), "config map cfg has no data");
    let present = ConfigMap { metadata: metadata("cfg", "ns", map(&[])), data: Some(map(&[])) };
    assert!(present.store_load("cfg").is_ok());
}

#[test]
fn secret_is_put_as_text() {
    let secret =
        Secret::store_put(Some("ns"), "s", map(&[("app", "x")]), map(&[("k", "v")])).unwrap();
    assert_eq!(secret.type_.as_deref(), Some("Opaque"));
    assert!(secret.data.is_none());
    assert_eq!(secret.metadata.name.as_deref(), Some("s"));
    assert_eq!(secret.string_data.unwrap().get("k").map(String::as_str), Some("v"));
}

#[test]
fn secret_round_trip() {
    let texts = [("a", "plain"), ("b", "gr\u{fc}n \u{1f600}"), ("c", "")];
    let put = Secret::store_put(Some("ns"), "s", map(&[]), map(&texts)).unwrap();
    let kept: Vec<(String, String)> = put.string_data.unwrap().into_entries();
    let raw: Vec<(&str, &[u8])> = kept.iter().map(|e| (e.0.as_str(), e.1.as_bytes())).collect();
    let handle = found(&raw).store_load("s").unwrap();
    for (key, value) in texts {
        assert_eq!(handle.get(key).unwrap(), value);
    }
    assert!(matches!(handle.get("d"), Err(StoreError::MissingKey { .. })));
}

#[test]
fn secret_without_data_is_refused() {
    let empty = Secret {
        metadata: metadata("s", "ns", map(&[])),
        string_data: None,
        data: None,
        type_: None,
    };
    assert_eq!(message(empty.store_load("s")), "secret s has no data");
}

#[test]
fn secret_that_is_not_utf8_is_refused_for_its_first_key() {
    let secret = found(&[("z", b"\xff"), ("m", b"ab\xc3"), ("a", b"fine")]);
    let reason = String::from_utf8(b"ab\xc3".to_vec()).unwrap_err();
    assert_eq!(
        message(secret.store_load("s")),
        format!("secret s key m is not valid UTF-8: {reason}")
    );
}
