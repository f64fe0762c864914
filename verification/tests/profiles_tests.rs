use gum_rs::config::UserConfig;
use gum_rs::profiles::Profiles;
use gum_rs::utils::truncate_str;

fn user(name: &str, email: &str) -> UserConfig {
    UserConfig { name: name.to_string(), email: email.to_string() }
}

#[test]
fn test_profiles_insert_get_remove() {
    let mut profiles = Profiles::new();
    assert!(profiles.is_empty());
    assert!(!profiles.contains(&"work".to_string()));

    profiles.insert(&"work".to_string(), user("Bob", "bob@co.com"));
    assert!(profiles.contains(&"work".to_string()));
    assert_eq!(profiles.len(), 1);
    assert_eq!(profiles.get(&"work".to_string()).unwrap().name, "Bob");

    assert!(profiles.remove(&"work".to_string()));
    assert!(!profiles.remove(&"work".to_string()));
    assert!(profiles.get(&"work".to_string()).is_none());
    assert_eq!(profiles.len(), 0);
}

#[test]
fn test_profiles_insert_replaces_existing_name() {
    let mut profiles = Profiles::new();
    profiles.insert(&"work".to_string(), user("Bob", "bob@co.com"));
    profiles.insert(&"work".to_string(), user("Robert", "rob@co.com"));
    assert_eq!(profiles.len(), 1);
    let got = profiles.get(&"work".to_string()).unwrap();
    assert_eq!(got.name, "Robert");
    assert_eq!(got.email, "rob@co.com");
}

#[test]
fn test_profiles_iteration_order_is_storage_order() {
    let mut profiles = Profiles::new();
    profiles.insert(&"b".to_string(), user("B", "b@x"));
    profiles.insert(&"a".to_string(), user("A", "a@x"));
    assert_eq!(profiles.entry_count(), 2);
    assert_eq!(profiles.key_at(0), "b");
    assert_eq!(profiles.key_at(1), "a");
    assert_eq!(profiles.user_at(1).name, "A");
}

#[test]
fn test_truncate_str_cuts_by_bytes() {
    assert_eq!(truncate_str("héllo", 3), "hé");
    assert_eq!(truncate_str("日本語テスト", 6), "日本");
    assert_eq!(truncate_str("日本", 12), "日本");
}

#[test]
fn test_unicode_profile_round_trips() {
    let mut profiles = Profiles::new();
    profiles.insert(&"日本".to_string(), user("Ünïcodé 😀", "mail@exämple.com"));
    let loaded =
        gum_rs::codec::load_profiles(&gum_rs::codec::save_profiles(&profiles)).unwrap();
    let got = loaded.get(&"日本".to_string()).unwrap();
    assert_eq!(got.name, "Ünïcodé 😀");
    assert_eq!(got.email, "mail@exämple.com");
}
