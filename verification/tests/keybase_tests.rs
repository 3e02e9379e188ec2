use merklechat::key::{initial_keybase, Key, Keybase};

#[test]
fn key_getters() {
    let k = Key::new("tag".to_string(), "key".to_string());
    assert_eq!(k.get_tag(), "tag");
    assert_eq!(k.get_key(), "key");
}

#[test]
fn add_then_get() {
    let mut base = Keybase::new();
    base.add_key(Key::new("t1".to_string(), "k1".to_string()));
    base.add_key(Key::new("t2".to_string(), "k2".to_string()));
    let k = base.get_key(&"t1".to_string()).unwrap();
    assert_eq!(k.get_tag(), "t1");
    assert_eq!(k.get_key(), "k1");
    let k = base.get_key(&"t2".to_string()).unwrap();
    assert_eq!(k.get_key(), "k2");
}

#[test]
fn get_unknown_tag_is_none() {
    let mut base = Keybase::new();
    assert!(base.get_key(&"t1".to_string()).is_none());
    base.add_key(Key::new("t1".to_string(), "k1".to_string()));
    assert!(base.get_key(&"t0".to_string()).is_none());
}

#[test]
fn later_key_replaces_earlier() {
    let mut base = Keybase::new();
    base.add_key(Key::new("t".to_string(), "old".to_string()));
    base.add_key(Key::new("u".to_string(), "other".to_string()));
    base.add_key(Key::new("t".to_string(), "new".to_string()));
    assert_eq!(base.get_key(&"t".to_string()).unwrap().get_key(), "new");
    assert_eq!(base.get_key(&"u".to_string()).unwrap().get_key(), "other");
}

#[test]
fn initial_keybase_holds_zero_key() {
    let base = initial_keybase();
    let k = base.get_key(&"AAAAAAAAAAAAAAAA".to_string()).unwrap();
    assert_eq!(k.get_key(), "AAAAAAAAAAAAAAAAAAAAAA==");
    assert!(base.get_key(&"AAAAAAAAAAAAAAAAAAAAAA==".to_string()).is_none());
}

#[test]
fn keys_lists_each_tag_once() {
    let mut base = Keybase::new();
    base.add_key(Key::new("t".to_string(), "old".to_string()));
    base.add_key(Key::new("u".to_string(), "k".to_string()));
    base.add_key(Key::new("t".to_string(), "new".to_string()));
    let keys = base.keys();
    let listed: Vec<(String, String)> = keys.iter().map(|k| (k.get_tag(), k.get_key())).collect();
    assert_eq!(
        listed,
        vec![("t".to_string(), "new".to_string()), ("u".to_string(), "k".to_string())]
    );
}
