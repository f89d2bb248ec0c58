use std::path::PathBuf;

use bookmarks::TomlStorage;

#[test]
fn test_default_path() {
    let path = TomlStorage::default_path().unwrap();
    assert!(path.ends_with(".config/bookmarks/bookmarks.toml"));
}

#[test]
fn test_backend_name() {
    let storage = TomlStorage::new(PathBuf::from("/tmp/test.toml"));
    assert_eq!(storage.backend_name(), "toml");
}

#[test]
fn config_path_for_found_home() {
    let p = TomlStorage::config_path_for(Some(PathBuf::from("/home/u"))).unwrap();
    assert_eq!(p, PathBuf::from("/home/u/.config/bookmarks/bookmarks.toml"));
    let e = TomlStorage::config_path_for(None).unwrap_err();
    assert_eq!(e.to_string(), "Failed to get home directory");
}

#[test]
fn for_home_uses_found_home() {
    let s = TomlStorage::for_home(Some(PathBuf::from("/home/u"))).unwrap();
    assert_eq!(s.path(), &PathBuf::from("/home/u/.config/bookmarks/bookmarks.toml"));
    assert!(TomlStorage::for_home(None).is_err());
}
