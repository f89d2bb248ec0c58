use bookmarks::{expand_groups, resolve_uri, Config, UrlEntry};

fn test_config() -> Config {
    let mut config = Config::default();
    config.urls.insert(
        "github".to_string(),
        UrlEntry::Full {
            url: "https://github.com".to_string(),
            aliases: vec!["gh".to_string()],
        },
    );
    config.urls.insert(
        "google".to_string(),
        UrlEntry::Full {
            url: "https://google.com".to_string(),
            aliases: vec!["g".to_string()],
        },
    );
    config.urls.insert(
        "dkdc-bookmarks".to_string(),
        UrlEntry::Simple("https://github.com/lostmygithubaccount/bookmarks".to_string()),
    );
    config.groups.insert(
        "dev".to_string(),
        vec!["gh".to_string(), "dkdc-bookmarks".to_string()],
    );
    config
}

#[test]
fn test_alias_resolves_to_uri() {
    let config = test_config();
    let uri = resolve_uri("gh", &config).unwrap();
    assert_eq!(uri, "https://github.com");
}

#[test]
fn test_url_name_resolves_to_uri() {
    let config = test_config();
    let uri = resolve_uri("dkdc-bookmarks", &config).unwrap();
    assert_eq!(uri, "https://github.com/lostmygithubaccount/bookmarks");
}

#[test]
fn test_url_name_with_aliases_resolves() {
    let config = test_config();
    let uri = resolve_uri("github", &config).unwrap();
    assert_eq!(uri, "https://github.com");
}

#[test]
fn test_unknown_name_errors() {
    let config = test_config();
    let result = resolve_uri("unknown", &config);
    assert!(result.is_err());
    assert!(result.unwrap_err().to_string().contains("not found"));
}

#[test]
fn test_expand_group() {
    let config = test_config();
    let names = vec!["dev".to_string()];
    let expanded = expand_groups(&names, &config);
    assert_eq!(expanded, vec!["gh", "dkdc-bookmarks"]);
}

#[test]
fn test_mixed_groups_and_names() {
    let config = test_config();
    let names = vec!["dev".to_string(), "google".to_string()];
    let expanded = expand_groups(&names, &config);
    assert_eq!(expanded, vec!["gh", "dkdc-bookmarks", "google"]);
}

#[test]
fn test_expand_groups_deduplicates() {
    let config = test_config();
    // "gh" appears in group "dev" and also directly
    let names = vec!["dev".to_string(), "gh".to_string()];
    let expanded = expand_groups(&names, &config);
    assert_eq!(expanded, vec!["gh", "dkdc-bookmarks"]);
}
