use gum_rs::codec::{load_profiles, save_profiles};
use gum_rs::config::{Config, GumError, UserConfig};
use gum_rs::profiles::Profiles;

fn user(name: &str, email: &str) -> UserConfig {
    UserConfig { name: name.to_string(), email: email.to_string() }
}

#[test]
fn test_config_new() {
    let config = Config::new();
    assert!(config.groups.is_empty());
    assert!(config.global_user.is_none());
    assert!(config.project_user.is_none());
}

#[test]
fn test_user_config_serialization() {
    let mut profiles = Profiles::new();
    profiles.insert(&"test".to_string(), user("Test User", "test@example.com"));
    let json = save_profiles(&profiles);
    let deserialized = load_profiles(&json).unwrap();
    let got = deserialized.get(&"test".to_string()).unwrap();
    assert_eq!(got.name, "Test User");
    assert_eq!(got.email, "test@example.com");
}

#[test]
fn test_set_profile_appears_in_full_view() {
    let mut config = Config::new();
    let r = config.set_profile(
        &"work".to_string(),
        Some("Bob".to_string()),
        Some("bob@co.com".to_string()),
    );
    assert!(r.is_ok());
    let all = config.get_all_config_info();
    let got = all.get(&"work".to_string()).unwrap();
    assert_eq!(got.name, "Bob");
    assert_eq!(got.email, "bob@co.com");
}

#[test]
fn test_set_profile_round_trips_through_file_text() {
    let mut config = Config::new();
    config
        .set_profile(
            &"work".to_string(),
            Some("Bob".to_string()),
            Some("bob@co.com".to_string()),
        )
        .unwrap();
    let text = save_profiles(&config.groups);
    let loaded = load_profiles(&text).unwrap();
    assert_eq!(loaded.len(), 1);
    let got = loaded.get(&"work".to_string()).unwrap();
    assert_eq!(got.name, "Bob");
    assert_eq!(got.email, "bob@co.com");
}

#[test]
fn test_set_profile_rejects_reserved_name() {
    let mut config = Config::new();
    config
        .set_profile(&"work".to_string(), Some("Bob".to_string()), None)
        .unwrap();
    let before = save_profiles(&config.groups);
    let r = config.set_profile(
        &"global".to_string(),
        Some("Eve".to_string()),
        Some("eve@co.com".to_string()),
    );
    assert_eq!(r, Err(GumError::ReservedGroupName));
    assert_eq!(save_profiles(&config.groups), before);
}

#[test]
fn test_set_profile_rejects_missing_fields() {
    let mut config = Config::new();
    config
        .set_profile(&"work".to_string(), Some("Bob".to_string()), None)
        .unwrap();
    let before = save_profiles(&config.groups);
    let r = config.set_profile(&"work".to_string(), None, None);
    assert_eq!(r, Err(GumError::MissingFields));
    assert_eq!(save_profiles(&config.groups), before);
}

#[test]
fn test_set_profile_patches_one_field() {
    let mut config = Config::new();
    config
        .set_profile(
            &"work".to_string(),
            Some("Bob".to_string()),
            Some("bob@co.com".to_string()),
        )
        .unwrap();
    config
        .set_profile(&"work".to_string(), Some("Robert".to_string()), None)
        .unwrap();
    let got = config.groups.get(&"work".to_string()).unwrap().clone();
    assert_eq!(got.name, "Robert");
    assert_eq!(got.email, "bob@co.com");
}

#[test]
fn test_set_profile_new_group_missing_field_is_empty() {
    let mut config = Config::new();
    config
        .set_profile(&"solo".to_string(), Some("Ann".to_string()), None)
        .unwrap();
    let got = config.groups.get(&"solo".to_string()).unwrap().clone();
    assert_eq!(got.name, "Ann");
    assert_eq!(got.email, "");
}

#[test]
fn test_delete_profile_unknown_fails_and_keeps_state() {
    let mut config = Config::new();
    config
        .set_profile(&"work".to_string(), Some("Bob".to_string()), None)
        .unwrap();
    let before = save_profiles(&config.groups);
    let r = config.delete_profile(&"nope".to_string());
    assert_eq!(r, Err(GumError::GroupNotFound));
    assert_eq!(save_profiles(&config.groups), before);
}

#[test]
fn test_delete_profile_removes_exactly_that_key() {
    let mut config = Config::new();
    config
        .set_profile(&"work".to_string(), Some("Bob".to_string()), None)
        .unwrap();
    config
        .set_profile(&"home".to_string(), Some("Ann".to_string()), None)
        .unwrap();
    let r = config.delete_profile(&"work".to_string());
    assert!(r.is_ok());
    assert!(config.groups.get(&"work".to_string()).is_none());
    assert!(config.groups.get(&"home".to_string()).is_some());
    assert_eq!(config.groups.len(), 1);
}

#[test]
fn test_delete_profile_rejects_reserved_name() {
    let mut config = Config::new();
    let r = config.delete_profile(&"global".to_string());
    assert_eq!(r, Err(GumError::CannotDeleteGlobal));
}

#[test]
fn test_effective_identity_shadowing() {
    let mut config = Config::new();
    assert!(matches!(config.get_using_git_user(), Err(GumError::NoGitUser)));

    config.refresh_global_user(Some(user("Alice", "a@x.com")));
    let using = config.get_using_git_user().unwrap();
    assert_eq!(using.name, "Alice");
    assert_eq!(using.email, "a@x.com");

    config.refresh_project_user(Some(user("Bob", "b@x.com")));
    let using = config.get_using_git_user().unwrap();
    assert_eq!(using.name, "Bob");
    assert_eq!(using.email, "b@x.com");

    config.refresh_global_user(None);
    let using = config.get_using_git_user().unwrap();
    assert_eq!(using.name, "Bob");
}

#[test]
fn test_full_view_synthesizes_global_entry() {
    let mut config = Config::new();
    config
        .set_profile(&"work".to_string(), Some("Bob".to_string()), None)
        .unwrap();
    let without = config.get_all_config_info();
    assert!(without.get(&"global".to_string()).is_none());

    config.refresh_global_user(Some(user("Alice", "a@x.com")));
    let with = config.get_all_config_info();
    let global = with.get(&"global".to_string()).unwrap();
    assert_eq!(global.name, "Alice");
    assert!(with.get(&"work".to_string()).is_some());
}

#[test]
fn test_apply_profile_unknown_name_fails_for_any_probe_answer() {
    let config = Config::new();
    assert!(matches!(
        config.apply_profile(&"nope".to_string(), false, false),
        Err(GumError::InvalidGroupName)
    ));
    assert!(matches!(
        config.apply_profile(&"nope".to_string(), false, true),
        Err(GumError::InvalidGroupName)
    ));
    assert!(matches!(
        config.apply_profile(&"nope".to_string(), true, true),
        Err(GumError::InvalidGroupName)
    ));
}

#[test]
fn test_apply_profile_local_outside_repository_fails() {
    let mut config = Config::new();
    config
        .set_profile(
            &"work".to_string(),
            Some("Bob".to_string()),
            Some("bob@co.com".to_string()),
        )
        .unwrap();
    assert!(matches!(
        config.apply_profile(&"work".to_string(), false, false),
        Err(GumError::NotGitRepository)
    ));
}

#[test]
fn test_apply_profile_hands_back_the_identity() {
    let mut config = Config::new();
    config
        .set_profile(
            &"work".to_string(),
            Some("Bob".to_string()),
            Some("bob@co.com".to_string()),
        )
        .unwrap();
    let u = config.apply_profile(&"work".to_string(), true, false).unwrap();
    assert_eq!(u.name, "Bob");
    assert_eq!(u.email, "bob@co.com");
    let v = config.apply_profile(&"work".to_string(), false, true).unwrap();
    assert_eq!(v.name, "Bob");
}

#[test]
fn test_apply_profile_resolves_the_synthesized_global_entry() {
    let mut config = Config::new();
    config.refresh_global_user(Some(user("Alice", "a@x.com")));
    let u = config.apply_profile(&"global".to_string(), true, false).unwrap();
    assert_eq!(u.name, "Alice");
}

#[test]
fn test_assemble_drops_a_stored_reserved_entry() {
    let mut profiles = Profiles::new();
    profiles.insert(&"global".to_string(), user("Eve", "eve@x.com"));
    profiles.insert(&"work".to_string(), user("Bob", "bob@co.com"));
    let config = Config::assemble(profiles, None, None);
    assert!(config.groups.get(&"global".to_string()).is_none());
    assert!(config.groups.get(&"work".to_string()).is_some());
}

#[test]
fn test_error_messages() {
    assert_eq!(GumError::ReservedGroupName.message(), "Group name cannot be 'global'");
    assert_eq!(
        GumError::MissingFields.message(),
        "Must provide at least one of username or email"
    );
    assert_eq!(GumError::InvalidGroupName.message(), "is an invalid group name");
    assert_eq!(
        GumError::NotGitRepository.message(),
        "Current project is not a git repository"
    );
    assert_eq!(GumError::CannotDeleteGlobal.message(), "Cannot delete global");
    assert_eq!(GumError::GroupNotFound.message(), "group not found");
    assert_eq!(GumError::NoGitUser.message(), "No git user configuration found");
    assert_eq!(GumError::NameWriteFailed.message(), "Failed to set git user.name");
    assert_eq!(GumError::EmailWriteFailed.message(), "Failed to set git user.email");
}

#[test]
fn test_end_to_end_scenario() {
    // Start from an empty profile file and no identity configured anywhere.
    let profiles = load_profiles(&save_profiles(&Profiles::new())).unwrap();
    let mut config = Config::assemble(profiles, None, None);
    assert!(matches!(config.get_using_git_user(), Err(GumError::NoGitUser)));

    // set work --name Bob --email bob@co.com
    let r = config.set_profile(
        &"work".to_string(),
        Some("Bob".to_string()),
        Some("bob@co.com".to_string()),
    );
    assert!(r.is_ok());
    let text = save_profiles(&config.groups);
    let on_disk = load_profiles(&text).unwrap();
    assert_eq!(on_disk.len(), 1);
    assert!(on_disk.get(&"work".to_string()).is_some());

    // use work --global, inside a repository: the identity to write.
    let written = config.apply_profile(&"work".to_string(), true, true).unwrap();
    assert_eq!(written.name, "Bob");
    assert_eq!(written.email, "bob@co.com");

    // The external tool now reports the written identity; the cache reloads.
    let reread = gum_rs::git::parse_identity_output(
        "user.name Bob\nuser.email bob@co.com\n",
    )
    .unwrap();
    config.refresh_global_user(Some(reread));

    // list: currently using Bob, and both rows carry identical values.
    let using = config.get_using_git_user().unwrap();
    assert_eq!(using.name, "Bob");
    assert_eq!(using.email, "bob@co.com");
    let all = config.get_all_config_info();
    let work = all.get(&"work".to_string()).unwrap().clone();
    let global = all.get(&"global".to_string()).unwrap().clone();
    assert_eq!(work.name, global.name);
    assert_eq!(work.email, global.email);
}
