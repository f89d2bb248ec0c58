use std::path::PathBuf;

use bookmarks::cli::{plan_action, resolve_storage, Action};
use bookmarks::open::{open_outcome, open_plan};
use bookmarks::{expand_groups, Args, BookmarksError, Config, StorageChoice, UrlEntry};

fn full(url: &str, aliases: &[&str]) -> UrlEntry {
    UrlEntry::Full {
        url: url.to_string(),
        aliases: aliases.iter().map(|a| a.to_string()).collect(),
    }
}

fn names(list: &[&str]) -> Vec<String> {
    list.iter().map(|a| a.to_string()).collect()
}

fn sample() -> Config {
    let mut config = Config::default();
    config.urls.insert(
        "dkdc-bookmarks".to_string(),
        UrlEntry::Simple("https://github.com/dkdc-io/bookmarks".to_string()),
    );
    config.urls.insert("github".to_string(), full("https://github.com", &["gh"]));
    config.urls.insert("linkedin".to_string(), full("https://linkedin.com", &["li"]));
    config.groups.insert("socials".to_string(), names(&["gh", "linkedin"]));
    config
}

#[test]
fn entry_new_without_aliases_is_plain() {
    let e = UrlEntry::new("https://a.com".to_string(), Some(vec![]));
    assert!(matches!(e, UrlEntry::Simple(_)));
    let e = UrlEntry::new("https://a.com".to_string(), None);
    assert!(matches!(e, UrlEntry::Simple(_)));
    let e = UrlEntry::new("https://a.com".to_string(), Some(names(&["a"])));
    assert_eq!(e.aliases(), &["a"]);
}

#[test]
fn add_alias_turns_plain_into_full_and_is_idempotent() {
    let mut e = UrlEntry::Simple("https://a.com".to_string());
    e.add_alias("x".to_string());
    assert_eq!(e.url(), "https://a.com");
    assert_eq!(e.aliases(), &["x"]);
    e.add_alias("x".to_string());
    assert_eq!(e.aliases(), &["x"]);
    e.add_alias("y".to_string());
    assert_eq!(e.aliases(), &["x", "y"]);
}

#[test]
fn remove_alias_removes_every_occurrence_and_keeps_form() {
    let mut e = full("https://a.com", &["x", "y", "x"]);
    e.remove_alias("x");
    assert_eq!(e.aliases(), &["y"]);
    assert!(!e.has_alias("x"));
    e.remove_alias("y");
    assert!(matches!(e, UrlEntry::Full { .. }));
    assert!(e.aliases().is_empty());
    let mut p = UrlEntry::Simple("https://b.com".to_string());
    p.remove_alias("y");
    assert!(matches!(p, UrlEntry::Simple(_)));
}

#[test]
fn set_url_keeps_aliases() {
    let mut e = full("https://a.com", &["x"]);
    e.set_url("https://b.com".to_string());
    assert_eq!(e.url(), "https://b.com");
    assert_eq!(e.aliases(), &["x"]);
}

#[test]
fn url_name_wins_over_alias_and_first_alias_owner_resolves() {
    let mut config = Config::default();
    config.urls.insert("a".to_string(), full("https://a.com", &["b", "x"]));
    config.urls.insert("b".to_string(), full("https://b.com", &["x"]));
    assert_eq!(config.resolve("b"), Some("https://b.com"));
    assert_eq!(config.resolve("x"), Some("https://a.com"));
    assert!(config.contains("x"));
    assert!(!config.contains("y"));
}

#[test]
fn rename_and_delete_alias_act_on_last_owner() {
    let mut config = Config::default();
    config.urls.insert("a".to_string(), full("https://a.com", &["x"]));
    config.urls.insert("b".to_string(), full("https://b.com", &["x"]));
    config.rename_alias("x", "z").unwrap();
    assert!(config.urls.get("a").unwrap().has_alias("x"));
    assert!(config.urls.get("b").unwrap().has_alias("z"));
    config.delete_alias("x").unwrap();
    assert!(!config.urls.get("a").unwrap().has_alias("x"));
}

#[test]
fn rename_url_round_trip_restores() {
    let mut config = sample();
    config.groups.insert("dev".to_string(), names(&["github", "gh", "other"]));
    config.rename_url("github", "hub").unwrap();
    assert_eq!(config.resolve("hub"), Some("https://github.com"));
    assert_eq!(config.resolve("github"), None);
    assert_eq!(config.groups.get("dev"), Some(&names(&["hub", "gh", "other"])));
    config.rename_url("hub", "github").unwrap();
    assert_eq!(config.urls.len(), 3);
    assert_eq!(config.urls.get("github").unwrap().aliases(), &["gh"]);
    assert_eq!(config.groups.get("dev"), Some(&names(&["github", "gh", "other"])));
}

#[test]
fn rename_url_errors_in_order() {
    let mut config = sample();
    let e = config.rename_url("nope", "nope").unwrap_err();
    assert_eq!(e.to_string(), "url 'nope' not found");
    let e = config.rename_url("github", "linkedin").unwrap_err();
    assert_eq!(e.to_string(), "url 'linkedin' already exists");
    let e = config.rename_url("github", "li").unwrap_err();
    assert_eq!(e.to_string(), "'li' already exists as an alias");
    let e = config.rename_url("nope", "fresh").unwrap_err();
    assert_eq!(e.to_string(), "url 'nope' not found");
    assert_eq!(config.urls.len(), 3);
}

#[test]
fn rename_alias_same_name_is_ok_even_if_unknown() {
    let mut config = sample();
    assert!(config.rename_alias("nope", "nope").is_ok());
    let e = config.rename_alias("gh", "github").unwrap_err();
    assert_eq!(e.to_string(), "'github' already exists as a url name");
    let e = config.rename_alias("gh", "li").unwrap_err();
    assert_eq!(e.to_string(), "alias 'li' already exists");
    let e = config.rename_alias("nope", "fresh").unwrap_err();
    assert_eq!(e.to_string(), "alias 'nope' not found");
}

#[test]
fn delete_url_removes_references_and_empty_groups() {
    let mut config = sample();
    config.groups.insert("empty".to_string(), vec![]);
    config.groups.insert("mixed".to_string(), names(&["github", "li", "gh"]));
    config.delete_url("github").unwrap();
    assert_eq!(config.groups.get("socials"), Some(&names(&["linkedin"])));
    assert_eq!(config.groups.get("mixed"), Some(&names(&["li"])));
    assert!(!config.groups.contains_key("empty"));
    let e = config.delete_url("github").unwrap_err();
    assert_eq!(e.to_string(), "url 'github' not found");
}

#[test]
fn group_errors_have_messages() {
    let mut config = sample();
    let e = config.delete_group("nope").unwrap_err();
    assert_eq!(e.to_string(), "group 'nope' not found");
    let e = config.rename_group("nope", "x").unwrap_err();
    assert_eq!(e.to_string(), "group 'nope' not found");
    config.groups.insert("dev".to_string(), names(&["gh"]));
    let e = config.rename_group("dev", "socials").unwrap_err();
    assert_eq!(e.to_string(), "group 'socials' already exists");
    assert!(config.rename_group("dev", "dev").is_ok());
    assert!(config.groups.contains_key("dev"));
    config.rename_group("dev", "work").unwrap();
    config.rename_group("work", "dev").unwrap();
    assert_eq!(config.groups.get("dev"), Some(&names(&["gh"])));
}

#[test]
fn other_error_messages() {
    assert_eq!(
        BookmarksError::NameNotFound("x".to_string()).to_string(),
        "'x' not found in [urls] names or aliases"
    );
    assert_eq!(BookmarksError::AllUrlsFailed.to_string(), "all urls failed to open");
    assert_eq!(
        BookmarksError::BookmarksFileNotFound("/a/b.toml".to_string()).to_string(),
        "bookmarks file not found: /a/b.toml"
    );
    assert_eq!(
        BookmarksError::HomeDirUnavailable.to_string(),
        "Failed to get home directory"
    );
}

#[test]
fn warning_texts_are_exact() {
    let mut config = Config::default();
    config.urls.insert("a".to_string(), full("https://a.com", &["x", "b"]));
    config.urls.insert("b".to_string(), full("https://b.com", &["x"]));
    config.groups.insert("g".to_string(), names(&["a", "ghost", "x"]));
    let warnings = config.validate();
    assert_eq!(
        warnings,
        vec![
            "alias 'b' on 'a' shadows url name 'b'".to_string(),
            "alias 'x' is defined on both 'b' and 'a'".to_string(),
            "group 'g' contains 'ghost' which is not a url name or alias".to_string(),
        ]
    );
}

#[test]
fn consistent_config_has_no_warnings() {
    let config = sample();
    assert!(config.validate().is_empty());
    let mut broken = sample();
    broken.groups.insert("bad".to_string(), names(&["nothing"]));
    assert_eq!(broken.validate().len(), 1);
}

#[test]
fn expand_keeps_order_and_first_occurrence() {
    let mut config = sample();
    config.groups.insert("dev".to_string(), names(&["github", "gh", "github"]));
    let input = names(&["gh", "dev", "socials", "unknown", "gh"]);
    let expanded = expand_groups(&input, &config);
    assert_eq!(expanded, vec!["gh", "github", "linkedin", "unknown"]);
}

#[test]
fn open_plan_resolves_each_name() {
    let config = sample();
    let input = names(&["socials", "nope"]);
    let plan = open_plan(&input, &config);
    assert_eq!(plan.len(), 3);
    assert_eq!(plan[0].name, "gh");
    assert_eq!(plan[0].uri.as_ref().unwrap(), "https://github.com");
    assert_eq!(plan[1].name, "linkedin");
    assert_eq!(plan[1].uri.as_ref().unwrap(), "https://linkedin.com");
    assert_eq!(plan[2].name, "nope");
    assert!(plan[2].uri.is_err());
}

#[test]
fn open_outcome_fails_only_when_all_fail() {
    assert!(open_outcome(0, 0).is_ok());
    assert!(open_outcome(3, 2).is_ok());
    assert!(open_outcome(2, 2).is_err());
    assert_eq!(open_outcome(1, 1).unwrap_err().to_string(), "all urls failed to open");
}

#[test]
fn listing_of_default_configuration() {
    let config = sample();
    let lines = config.listing();
    assert_eq!(
        lines,
        vec![
            "urls:".to_string(),
            "".to_string(),
            "• dkdc-bookmarks | https://github.com/dkdc-io/bookmarks".to_string(),
            "• github         | https://github.com (aliases: gh)".to_string(),
            "• linkedin       | https://linkedin.com (aliases: li)".to_string(),
            "".to_string(),
            "groups:".to_string(),
            "".to_string(),
            "• socials | [gh, linkedin]".to_string(),
            "".to_string(),
        ]
    );
}

#[test]
fn listing_sorts_and_pads_by_bytes() {
    let mut config = Config::default();
    config.urls.insert("b".to_string(), UrlEntry::Simple("u2".to_string()));
    config.urls.insert("café".to_string(), full("u1", &["c", "d"]));
    config.urls.insert("B".to_string(), UrlEntry::Simple("u0".to_string()));
    let lines = config.listing();
    assert_eq!(
        lines,
        vec![
            "urls:".to_string(),
            "".to_string(),
            "• B     | u0".to_string(),
            "• b     | u2".to_string(),
            "• café  | u1 (aliases: c, d)".to_string(),
            "".to_string(),
        ]
    );
    assert!(Config::default().listing().is_empty());
}

fn args(file: Option<&str>, global: bool, local: bool, config: bool, links: &[&str]) -> Args {
    Args {
        bookmarks_file: file.map(PathBuf::from),
        global,
        local,
        config,
        links: names(links),
    }
}

#[test]
fn storage_choice_follows_precedence() {
    let a = args(Some("/x.toml"), true, true, false, &[]);
    assert_eq!(resolve_storage(&a, true, "/x.toml", true).unwrap(), StorageChoice::Explicit);
    let e = resolve_storage(&a, false, "/x.toml", true).unwrap_err();
    assert!(e.to_string().contains("not found"));
    let a = args(None, true, true, false, &[]);
    assert_eq!(resolve_storage(&a, false, "", true).unwrap(), StorageChoice::Local);
    let a = args(None, false, false, false, &[]);
    assert_eq!(resolve_storage(&a, false, "", true).unwrap(), StorageChoice::CurrentDir);
    assert_eq!(resolve_storage(&a, false, "", false).unwrap(), StorageChoice::Global);
    let a = args(None, true, false, false, &[]);
    assert_eq!(resolve_storage(&a, false, "", true).unwrap(), StorageChoice::Global);
}

#[test]
fn action_follows_flags() {
    assert_eq!(plan_action(&args(None, false, false, true, &["gh"])), Action::EditConfig);
    assert_eq!(plan_action(&args(None, false, false, false, &[])), Action::PrintConfig);
    assert_eq!(plan_action(&args(None, false, false, false, &["gh"])), Action::OpenLinks);
}

#[test]
fn add_url_replaces_in_place() {
    let mut config = sample();
    config.add_url("github".to_string(), "https://gh.io".to_string(), None);
    assert_eq!(config.resolve("github"), Some("https://gh.io"));
    assert_eq!(config.resolve("gh"), None);
    config.add_url("new".to_string(), "https://n.io".to_string(), Some(names(&["n"])));
    assert_eq!(config.resolve("n"), Some("https://n.io"));
    assert_eq!(config.urls.key_at(3), "new");
}

#[test]
fn name_map_insert_then_lookup_and_remove() {
    let mut m: bookmarks::NameMap<String> = bookmarks::NameMap::new();
    assert!(m.insert("a".to_string(), "1".to_string()).is_none());
    assert!(m.insert("b".to_string(), "2".to_string()).is_none());
    assert_eq!(m.insert("a".to_string(), "3".to_string()), Some("1".to_string()));
    assert_eq!(m.get("a"), Some(&"3".to_string()));
    assert_eq!(m.get("b"), Some(&"2".to_string()));
    assert_eq!(m.key_at(0), "a");
    assert_eq!(m.len(), 2);
    assert_eq!(m.remove("a"), Some("3".to_string()));
    assert!(m.get("a").is_none());
    assert_eq!(m.get("b"), Some(&"2".to_string()));
    assert!(m.remove("a").is_none());
    assert_eq!(m.find("b"), Some(0));
}

#[test]
fn edits_keep_a_clean_configuration_clean() {
    let mut config = sample();
    config.groups.insert("dev".to_string(), names(&["gh", "dkdc-bookmarks"]));
    assert!(config.validate().is_empty());
    config.rename_alias("gh", "hub").unwrap();
    assert!(config.validate().is_empty());
    config.rename_url("linkedin", "in").unwrap();
    assert!(config.validate().is_empty());
    config.rename_group("dev", "work").unwrap();
    assert!(config.validate().is_empty());
    config.delete_alias("li").unwrap();
    assert!(config.validate().is_empty());
    config.delete_url("github").unwrap();
    assert!(config.validate().is_empty());
    config.delete_group("socials").unwrap();
    assert!(config.validate().is_empty());
    assert_eq!(config.groups.get("work"), Some(&names(&["dkdc-bookmarks"])));
}
