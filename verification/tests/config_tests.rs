use bookmarks::{Config, UrlEntry};

fn full(url: &str, aliases: &[&str]) -> UrlEntry {
    UrlEntry::Full {
        url: url.to_string(),
        aliases: aliases.iter().map(|a| a.to_string()).collect(),
    }
}

fn simple(url: &str) -> UrlEntry {
    UrlEntry::Simple(url.to_string())
}

fn names(list: &[&str]) -> Vec<String> {
    list.iter().map(|a| a.to_string()).collect()
}

/// The configuration written to a new bookmarks file, built entry by entry.
fn default_config() -> Config {
    let mut config = Config::default();
    config.urls.insert(
        "dkdc-bookmarks".to_string(),
        simple("https://github.com/dkdc-io/bookmarks"),
    );
    config.urls.insert("github".to_string(), full("https://github.com", &["gh"]));
    config.urls.insert("linkedin".to_string(), full("https://linkedin.com", &["li"]));
    config.groups.insert("socials".to_string(), names(&["gh", "linkedin"]));
    config
}

#[test]
fn test_parse_valid_config() {
    let mut config = Config::default();
    config.urls.insert("github".to_string(), full("https://github.com", &["gh"]));
    config.groups.insert("dev".to_string(), names(&["gh"]));
    let entry = config.urls.get("github").unwrap();
    assert_eq!(entry.url(), "https://github.com");
    assert_eq!(entry.aliases(), &["gh"]);
    assert_eq!(config.groups.get("dev"), Some(&vec!["gh".to_string()]));
}

#[test]
fn test_parse_simple_url() {
    let mut config = Config::default();
    config.urls.insert(
        "dkdc-bookmarks".to_string(),
        simple("https://github.com/dkdc-io/bookmarks"),
    );
    let entry = config.urls.get("dkdc-bookmarks").unwrap();
    assert_eq!(entry.url(), "https://github.com/dkdc-io/bookmarks");
    assert!(entry.aliases().is_empty());
}

#[test]
fn test_parse_expanded_table() {
    let mut config = Config::default();
    config.urls.insert("linkedin".to_string(), full("https://linkedin.com", &["li", "ln"]));
    let entry = config.urls.get("linkedin").unwrap();
    assert_eq!(entry.url(), "https://linkedin.com");
    assert_eq!(entry.aliases(), &["li", "ln"]);
}

#[test]
fn test_parse_hybrid_config() {
    let config = default_config();
    assert_eq!(config.urls.len(), 3);
    assert_eq!(
        config.urls.get("dkdc-bookmarks").unwrap().url(),
        "https://github.com/dkdc-io/bookmarks"
    );
    assert_eq!(config.urls.get("github").unwrap().aliases(), &["gh"]);
    assert_eq!(config.urls.get("linkedin").unwrap().aliases(), &["li"]);
    assert!(config.validate().is_empty());
}

#[test]
fn test_parse_empty_config() {
    let config = Config::default();
    assert!(config.urls.is_empty());
    assert!(config.groups.is_empty());
}

#[test]
fn test_valid_config_has_no_warnings() {
    let config = default_config();
    assert!(config.validate().is_empty());
}

#[test]
fn test_resolve_by_url_name() {
    let config = default_config();
    assert_eq!(
        config.resolve("dkdc-bookmarks"),
        Some("https://github.com/dkdc-io/bookmarks")
    );
}

#[test]
fn test_resolve_by_alias() {
    let config = default_config();
    assert_eq!(config.resolve("gh"), Some("https://github.com"));
}

#[test]
fn test_resolve_unknown() {
    let config = default_config();
    assert_eq!(config.resolve("nope"), None);
}

#[test]
fn test_duplicate_alias_warns() {
    let mut config = Config::default();
    config.urls.insert("a".to_string(), full("https://a.com", &["x"]));
    config.urls.insert("b".to_string(), full("https://b.com", &["x"]));
    let warnings = config.validate();
    assert_eq!(warnings.len(), 1);
    assert!(warnings[0].contains("x"));
}

#[test]
fn test_alias_shadows_url_name_warns() {
    let mut config = Config::default();
    config.urls.insert("github".to_string(), full("https://github.com", &["dkdc-bookmarks"]));
    config.urls.insert(
        "dkdc-bookmarks".to_string(),
        simple("https://github.com/dkdc-io/bookmarks"),
    );
    let warnings = config.validate();
    assert!(!warnings.is_empty());
    assert!(warnings.iter().any(|w| w.contains("shadows")));
}

#[test]
fn test_broken_group_entry_warns() {
    let mut config = Config::default();
    config.urls.insert("real".to_string(), simple("https://example.com"));
    config.groups.insert("dev".to_string(), names(&["real", "ghost"]));
    let warnings = config.validate();
    assert_eq!(warnings.len(), 1);
    assert!(warnings[0].contains("ghost"));
}

#[test]
fn test_rename_url_cascades_groups() {
    let mut config = Config::default();
    config.urls.insert("github".to_string(), simple("https://github.com"));
    config.groups.insert("dev".to_string(), names(&["github"]));
    config.rename_url("github", "gh-link").unwrap();
    assert!(config.urls.contains_key("gh-link"));
    assert!(!config.urls.contains_key("github"));
    assert_eq!(config.groups.get("dev"), Some(&vec!["gh-link".to_string()]));
}

#[test]
fn test_rename_alias_cascades_groups() {
    let mut config = Config::default();
    config.urls.insert("github".to_string(), full("https://github.com", &["gh"]));
    config.groups.insert("dev".to_string(), names(&["gh"]));
    config.groups.insert("all".to_string(), names(&["gh", "other"]));
    config.rename_alias("gh", "github-alias").unwrap();
    let entry = config.urls.get("github").unwrap();
    assert!(entry.has_alias("github-alias"));
    assert!(!entry.has_alias("gh"));
    assert_eq!(
        config.groups.get("dev"),
        Some(&vec!["github-alias".to_string()])
    );
    let all = config.groups.get("all").unwrap();
    assert!(all.contains(&"github-alias".to_string()));
    assert!(all.contains(&"other".to_string()));
}

#[test]
fn test_rename_nonexistent_url_errors() {
    let mut config = Config::default();
    assert!(config.rename_url("nope", "new").is_err());
}

#[test]
fn test_rename_nonexistent_alias_errors() {
    let mut config = Config::default();
    assert!(config.rename_alias("nope", "new").is_err());
}

#[test]
fn test_rename_url_collision_errors() {
    let mut config = Config::default();
    config.urls.insert("a".to_string(), simple("https://a.com"));
    config.urls.insert("b".to_string(), simple("https://b.com"));
    let result = config.rename_url("a", "b");
    assert!(result.is_err());
    assert!(result.unwrap_err().to_string().contains("already exists"));
    assert!(config.urls.contains_key("a"));
    assert!(config.urls.contains_key("b"));
}

#[test]
fn test_rename_alias_collision_errors() {
    let mut config = Config::default();
    config.urls.insert("a".to_string(), full("https://a.com", &["x"]));
    config.urls.insert("b".to_string(), full("https://b.com", &["y"]));
    let result = config.rename_alias("x", "y");
    assert!(result.is_err());
    assert!(result.unwrap_err().to_string().contains("already exists"));
}

#[test]
fn test_rename_url_to_existing_alias_errors() {
    let mut config = Config::default();
    config.urls.insert("github".to_string(), full("https://github.com", &["gh"]));
    config.urls.insert("other".to_string(), simple("https://other.com"));
    let result = config.rename_url("other", "gh");
    assert!(result.is_err());
    assert!(
        result
            .unwrap_err()
            .to_string()
            .contains("already exists as an alias")
    );
    assert!(config.urls.contains_key("other"));
}

#[test]
fn test_rename_alias_to_existing_url_errors() {
    let mut config = Config::default();
    config.urls.insert("github".to_string(), full("https://github.com", &["gh"]));
    config.urls.insert("other".to_string(), simple("https://other.com"));
    let result = config.rename_alias("gh", "other");
    assert!(result.is_err());
    assert!(
        result
            .unwrap_err()
            .to_string()
            .contains("already exists as a url name")
    );
    assert!(config.urls.get("github").unwrap().has_alias("gh"));
}

#[test]
fn test_rename_url_same_name_is_noop() {
    let mut config = Config::default();
    config.urls.insert("a".to_string(), simple("https://a.com"));
    config.rename_url("a", "a").unwrap();
    assert_eq!(config.urls.get("a").unwrap().url(), "https://a.com");
}

#[test]
fn test_delete_url_cascades() {
    let mut config = Config::default();
    config.urls.insert("github".to_string(), full("https://github.com", &["gh", "g"]));
    config.urls.insert(
        "dkdc-bookmarks".to_string(),
        simple("https://github.com/dkdc-io/bookmarks"),
    );
    config.groups.insert("dev".to_string(), names(&["gh", "github"]));
    config.delete_url("github").unwrap();
    assert!(!config.urls.contains_key("github"));
    assert!(config.urls.contains_key("dkdc-bookmarks"));
    // Group entries for both the url name and its aliases are removed
    assert!(!config.groups.contains_key("dev"));
}

#[test]
fn test_delete_url_partial_group_cleanup() {
    let mut config = Config::default();
    config.urls.insert("github".to_string(), full("https://github.com", &["gh"]));
    config.urls.insert(
        "dkdc-bookmarks".to_string(),
        simple("https://github.com/dkdc-io/bookmarks"),
    );
    config.groups.insert("dev".to_string(), names(&["gh", "dkdc-bookmarks"]));
    config.delete_url("github").unwrap();
    let dev = config.groups.get("dev").unwrap();
    assert_eq!(dev, &vec!["dkdc-bookmarks".to_string()]);
}

#[test]
fn test_delete_alias_cascades_to_groups() {
    let mut config = Config::default();
    config.urls.insert("github".to_string(), full("https://github.com", &["gh"]));
    config.groups.insert("dev".to_string(), names(&["gh"]));
    config.delete_alias("gh").unwrap();
    // Alias removed from url entry
    assert!(config.urls.get("github").unwrap().aliases().is_empty());
    // Group with only "gh" is now empty and removed
    assert!(!config.groups.contains_key("dev"));
}

#[test]
fn test_delete_group() {
    let mut config = Config::default();
    config.groups.insert("dev".to_string(), names(&["gh"]));
    config.delete_group("dev").unwrap();
    assert!(!config.groups.contains_key("dev"));
}

#[test]
fn test_rename_group_collision_errors() {
    let mut config = Config::default();
    config.groups.insert("a".to_string(), names(&["x"]));
    config.groups.insert("b".to_string(), names(&["y"]));
    let result = config.rename_group("a", "b");
    assert!(result.is_err());
    assert!(result.unwrap_err().to_string().contains("already exists"));
    assert!(config.groups.contains_key("a"));
    assert!(config.groups.contains_key("b"));
}

#[test]
fn test_rename_group_cascades() {
    let mut config = Config::default();
    config.groups.insert("dev".to_string(), names(&["gh", "dkdc-bookmarks"]));
    config.rename_group("dev", "development").unwrap();
    assert!(!config.groups.contains_key("dev"));
    assert_eq!(
        config.groups.get("development"),
        Some(&vec!["gh".to_string(), "dkdc-bookmarks".to_string()])
    );
}

#[test]
fn test_delete_nonexistent_errors() {
    let mut config = Config::default();
    assert!(config.delete_url("nope").is_err());
    assert!(config.delete_alias("nope").is_err());
    assert!(config.delete_group("nope").is_err());
}

#[test]
fn test_parse_groups_only_no_urls() {
    let mut config = Config::default();
    config.groups.insert("dev".to_string(), names(&["gh"]));
    assert!(config.urls.is_empty());
    let warnings = config.validate();
    assert!(warnings.iter().any(|w| w.contains("gh")));
}
