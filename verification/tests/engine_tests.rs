//! Tests of the engine selection logic and the sled-backed engine.

use kvs::engine_name::{marker_allows, EngineName};
use kvs::error::KvsError;
use kvs::sled_engine::{remove_outcome, SledKvsEngine};

#[test]
fn engine_names_parse_and_render() {
    assert_eq!(EngineName::from_str("kvs").unwrap(), EngineName::Kvs);
    assert_eq!(EngineName::from_str("sled").unwrap(), EngineName::Sled);
    assert_eq!(EngineName::Kvs.name(), "kvs");
    assert_eq!(EngineName::Sled.name(), "sled");
    let err = EngineName::from_str("bogus").unwrap_err();
    assert_eq!(err.0, "bogus");
    assert!(EngineName::from_str("Kvs").is_err());
    assert!(EngineName::from_str("").is_err());
}

#[test]
fn marker_must_name_the_chosen_engine() {
    assert!(marker_allows("kvs", EngineName::Kvs));
    assert!(marker_allows("sled", EngineName::Sled));
    assert!(!marker_allows("kvs", EngineName::Sled));
    assert!(!marker_allows("sled", EngineName::Kvs));
    assert!(!marker_allows("other", EngineName::Kvs));
    assert!(!marker_allows("", EngineName::Sled));
}

#[test]
fn sled_engine_round_trips() {
    let dir = tempfile::tempdir().unwrap();
    let engine = SledKvsEngine::new(sled::open(dir.path()).unwrap());
    engine.set("foo".to_string(), "bar".to_string()).unwrap();
    // A real store stands behind the wrappers: the value read back is the
    // one stored, not an echo of the key.
    assert_eq!(engine.get("foo".to_string()).unwrap(), Some("bar".to_string()));
    assert_eq!(engine.get("absent".to_string()).unwrap(), None);
    engine.set("foo".to_string(), "baz".to_string()).unwrap();
    assert_eq!(engine.get("foo".to_string()).unwrap(), Some("baz".to_string()));
    engine.remove("foo".to_string()).unwrap();
    assert_eq!(engine.get("foo".to_string()).unwrap(), None);
    let err = engine.remove("foo".to_string()).unwrap_err();
    assert!(matches!(err, KvsError::KeyNotFound));
}

#[test]
fn sled_engine_clones_share_state() {
    let dir = tempfile::tempdir().unwrap();
    let engine = SledKvsEngine::new(sled::open(dir.path()).unwrap());
    let clone = engine.clone();
    engine.set("k".to_string(), "v".to_string()).unwrap();
    assert_eq!(clone.get("k".to_string()).unwrap(), Some("v".to_string()));
}

#[test]
fn non_utf8_stored_bytes_are_a_utf8_error() {
    assert!(matches!(
        kvs::sled_engine::decode_sled_value(Some(vec![0xff, 0xfe])),
        Err(KvsError::Utf8(_))
    ));
    assert_eq!(kvs::sled_engine::decode_sled_value(None).unwrap(), None);
    assert_eq!(
        kvs::sled_engine::decode_sled_value(Some(b"plain".to_vec())).unwrap(),
        Some("plain".to_string())
    );
}

#[test]
fn remove_outcome_decides_on_sled_answers() {
    assert!(matches!(remove_outcome(false, Ok(())), Err(KvsError::KeyNotFound)));
    assert!(matches!(
        remove_outcome(false, Err("irrelevant".to_string())),
        Err(KvsError::KeyNotFound)
    ));
    assert!(remove_outcome(true, Ok(())).is_ok());
    assert!(matches!(
        remove_outcome(true, Err("disk gone".to_string())),
        Err(KvsError::Sled(m)) if m == "disk gone"
    ));
}
