use gum_rs::codec::{load_profiles, save_profiles};
use gum_rs::config::UserConfig;
use gum_rs::profiles::Profiles;

fn user(name: &str, email: &str) -> UserConfig {
    UserConfig { name: name.to_string(), email: email.to_string() }
}

#[test]
fn test_empty_mapping_round_trips() {
    let text = save_profiles(&Profiles::new());
    let loaded = load_profiles(&text).unwrap();
    assert_eq!(loaded.len(), 0);
}

#[test]
fn test_two_profiles_round_trip() {
    let mut profiles = Profiles::new();
    profiles.insert(&"work".to_string(), user("Bob", "bob@co.com"));
    profiles.insert(&"home".to_string(), user("Ann Lee", "ann@home.net"));
    let loaded = load_profiles(&save_profiles(&profiles)).unwrap();
    assert_eq!(loaded.len(), 2);
    let bob = loaded.get(&"work".to_string()).unwrap();
    assert_eq!(bob.name, "Bob");
    assert_eq!(bob.email, "bob@co.com");
    let ann = loaded.get(&"home".to_string()).unwrap();
    assert_eq!(ann.name, "Ann Lee");
    assert_eq!(ann.email, "ann@home.net");
}

#[test]
fn test_awkward_characters_round_trip() {
    let mut profiles = Profiles::new();
    profiles.insert(
        &"q\"uote\\slash".to_string(),
        user("line\nbreak\ttab", "cr\rbs\u{0008}ff\u{000C}"),
    );
    let loaded = load_profiles(&save_profiles(&profiles)).unwrap();
    let got = loaded.get(&"q\"uote\\slash".to_string()).unwrap();
    assert_eq!(got.name, "line\nbreak\ttab");
    assert_eq!(got.email, "cr\rbs\u{0008}ff\u{000C}");
}

#[test]
fn test_saved_text_is_well_formed_json() {
    let mut profiles = Profiles::new();
    profiles.insert(&"work".to_string(), user("Bob", "bob@co.com"));
    let text = save_profiles(&profiles);
    let value: serde_json::Value = serde_json::from_str(&text).unwrap();
    assert_eq!(value["groups"]["work"]["name"], "Bob");
    assert_eq!(value["groups"]["work"]["email"], "bob@co.com");
}

#[test]
fn test_loads_pretty_printed_text() {
    let text = "{\n  \"groups\": {\n    \"work\": {\n      \"name\": \"Bob\",\n      \"email\": \"bob@co.com\"\n    }\n  }\n}\n";
    let loaded = load_profiles(text).unwrap();
    let got = loaded.get(&"work".to_string()).unwrap();
    assert_eq!(got.name, "Bob");
    assert_eq!(got.email, "bob@co.com");
}

#[test]
fn test_loads_named_escapes() {
    let text = "{\"groups\":{\"a\":{\"name\":\"x\\n\\t\\\"y\\\\\",\"email\":\"a\\/b\"}}}";
    let loaded = load_profiles(text).unwrap();
    let got = loaded.get(&"a".to_string()).unwrap();
    assert_eq!(got.name, "x\n\t\"y\\");
    assert_eq!(got.email, "a/b");
}

#[test]
fn test_control_characters_are_escaped_for_other_tools() {
    let mut profiles = Profiles::new();
    profiles.insert(&"c".to_string(), user("a\u{1}b\u{1f}c", "e@x"));
    let text = save_profiles(&profiles);
    assert!(text.contains("\\u0001"));
    assert!(text.contains("\\u001f"));
    let value: serde_json::Value = serde_json::from_str(&text).unwrap();
    assert_eq!(value["groups"]["c"]["name"], "a\u{1}b\u{1f}c");
    let loaded = load_profiles(&text).unwrap();
    assert_eq!(loaded.get(&"c".to_string()).unwrap().name, "a\u{1}b\u{1f}c");
}

#[test]
fn test_loads_hexadecimal_escapes() {
    let text = "{\"groups\":{\"a\":{\"name\":\"\\u0041\\u263a\",\"email\":\"e\\u0009x\"}}}";
    let loaded = load_profiles(text).unwrap();
    let got = loaded.get(&"a".to_string()).unwrap();
    assert_eq!(got.name, "A\u{263A}");
    assert_eq!(got.email, "e\tx");
}

#[test]
fn test_rejects_bad_hexadecimal_escapes() {
    assert!(load_profiles("{\"groups\":{\"a\":{\"name\":\"\\u12\",\"email\":\"e\"}}}").is_none());
    assert!(load_profiles("{\"groups\":{\"a\":{\"name\":\"\\uzzzz\",\"email\":\"e\"}}}").is_none());
    assert!(
        load_profiles("{\"groups\":{\"a\":{\"name\":\"\\ud834\",\"email\":\"e\"}}}").is_none()
    );
}

#[test]
fn test_unknown_top_level_fields_are_ignored() {
    let text = "{\"version\": 3, \"extras\": [1, {\"a\": \"}]\"}, null], \"groups\": {\"w\": {\"name\": \"B\", \"email\": \"b@c\"}}, \"note\": \"x\"}";
    let loaded = load_profiles(text).unwrap();
    assert_eq!(loaded.len(), 1);
    assert_eq!(loaded.get(&"w".to_string()).unwrap().name, "B");
}

#[test]
fn test_unknown_identity_fields_are_ignored() {
    let text = "{\"groups\":{\"w\":{\"name\":\"B\",\"color\":[1,2],\"email\":\"b@c\"}}}";
    let loaded = load_profiles(text).unwrap();
    assert_eq!(loaded.get(&"w".to_string()).unwrap().email, "b@c");
}

#[test]
fn test_malformed_text_is_rejected() {
    assert!(load_profiles("").is_none());
    assert!(load_profiles("not json").is_none());
    assert!(load_profiles("{\"groups\":").is_none());
    assert!(load_profiles("{\"groups\":{\"w\":{\"name\":\"B\"}}}").is_none());
    assert!(load_profiles("{\"groups\":{}} trailing").is_none());
    assert!(load_profiles("{}").is_none());
    assert!(load_profiles("{\"other\": 1}").is_none());
    assert!(load_profiles("{\"groups\":{},\"groups\":{}}").is_none());
}

#[test]
fn test_later_duplicate_group_wins() {
    let text = "{\"groups\":{\"w\":{\"name\":\"A\",\"email\":\"a@x\"},\"w\":{\"name\":\"B\",\"email\":\"b@x\"}}}";
    let loaded = load_profiles(text).unwrap();
    assert_eq!(loaded.len(), 1);
    assert_eq!(loaded.get(&"w".to_string()).unwrap().name, "B");
}

#[test]
fn test_loads_text_written_by_other_tools() {
    let mut inner = serde_json::Map::new();
    inner.insert("name".to_string(), serde_json::Value::String("Bob".to_string()));
    inner.insert("email".to_string(), serde_json::Value::String("bob@co.com".to_string()));
    let mut groups = serde_json::Map::new();
    groups.insert("work".to_string(), serde_json::Value::Object(inner));
    let mut root = serde_json::Map::new();
    root.insert("groups".to_string(), serde_json::Value::Object(groups));
    let text = serde_json::to_string_pretty(&serde_json::Value::Object(root)).unwrap();
    let loaded = load_profiles(&text).unwrap();
    let got = loaded.get(&"work".to_string()).unwrap();
    assert_eq!(got.name, "Bob");
    assert_eq!(got.email, "bob@co.com");
}
