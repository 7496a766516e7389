use pomme::sounds::{
    def_variants, entry_of, entry_variant, field_text, sound_asset_key, sound_events, sound_events_of, weight_of, SoundEntry,
};

#[test]
fn asset_keys() {
    assert_eq!(sound_asset_key("music/menu/menu1"), "minecraft/sounds/music/menu/menu1.ogg");
    assert_eq!(sound_asset_key("namespace:path"), "namespace/sounds/path.ogg");
    assert_eq!(sound_asset_key("a:b:c"), "a/sounds/b:c.ogg");
    assert_eq!(sound_asset_key(":x"), "/sounds/x.ogg");
}

#[test]
fn weights() {
    assert_eq!(weight_of(None), 1);
    assert_eq!(weight_of(Some(0)), 1);
    assert_eq!(weight_of(Some(5)), 5);
    assert_eq!(weight_of(Some((1u64 << 32) + 3)), 3);
}

#[test]
fn entries() {
    assert_eq!(entry_variant(&SoundEntry::Bare("a".to_string())), Some(("a".to_string(), 1)));
    let redirect = SoundEntry::Object { kind: Some("event".to_string()), name: Some("b".to_string()), weight: None };
    assert_eq!(entry_variant(&redirect), None);
    let named = SoundEntry::Object { kind: Some("file".to_string()), name: Some("c".to_string()), weight: Some(4) };
    assert_eq!(entry_variant(&named), Some(("c".to_string(), 4)));
    let nameless = SoundEntry::Object { kind: None, name: None, weight: Some(4) };
    assert_eq!(entry_variant(&nameless), None);
    assert_eq!(entry_variant(&SoundEntry::Other), None);
}

#[test]
fn sound_events_without_an_object_are_empty() {
    assert!(sound_events("").is_empty());
    assert!(sound_events("{not json").is_empty());
    assert!(sound_events("[\"a\"]").is_empty());
    assert!(sound_events("\"music.menu\"").is_empty());
    assert!(sound_events_of(&None).is_empty());
}

#[test]
fn sound_events_keep_named_variants() {
    let doc = r#"{
        "music.menu": {"sounds": [
            "music/menu/menu1",
            {"name": "ns:menu2", "weight": 3},
            {"type": "event", "name": "other.event"},
            5,
            {"weight": 2},
            {"type": "file", "name": "menu3", "weight": 1.5, "volume": 0.5}
        ]},
        "empty.list": {"sounds": []},
        "no.sounds": {"subtitle": "x"},
        "not.a.list": {"sounds": "x"},
        "only.redirects": {"sounds": [{"type": "event", "name": "a"}]},
        "zero.weight": {"sounds": [{"name": "w", "weight": 0}]}
    }"#;
    assert_eq!(
        sound_events(doc),
        vec![
            (
                "music.menu".to_string(),
                vec![
                    ("music/menu/menu1".to_string(), 1, 0),
                    ("ns:menu2".to_string(), 3, 1),
                    ("menu3".to_string(), 1, 5),
                ]
            ),
            ("zero.weight".to_string(), vec![("w".to_string(), 1, 0)]),
        ]
    );
}

#[test]
fn entries_from_json_text() {
    assert_eq!(entry_variant(&entry_of("\"a/b\"")), Some(("a/b".to_string(), 1)));
    assert_eq!(entry_variant(&entry_of(r#"{"type":"file","name":"c","weight":4}"#)), Some(("c".to_string(), 4)));
    assert_eq!(entry_variant(&entry_of(r#"{"type":"event","name":"c"}"#)), None);
    assert_eq!(entry_variant(&entry_of(r#"{"name":7}"#)), None);
    assert_eq!(entry_variant(&entry_of("null")), None);
    assert_eq!(def_variants(r#"{"sounds":["x"]}"#), Some(vec![("x".to_string(), 1, 0)]));
    assert_eq!(def_variants(r#"{"other":["x"]}"#), None);
}

#[test]
fn first_field_of_a_name_wins() {
    let fields = vec![("name".to_string(), "\"a\"".to_string()), ("name".to_string(), "\"b\"".to_string())];
    assert_eq!(field_text(&fields, "name"), Some(&"\"a\"".to_string()));
    assert_eq!(field_text(&fields, "weight"), None);
}
