use pahkat_client::{
    package_status, path_hash, AbsolutePackageKey, ConfigError, InstallerKind, PackageStatus, RepoRecord,
    StoreConfig,
};

fn rec(url: &str, channel: &str) -> RepoRecord {
    RepoRecord { url: url.to_string(), channel: channel.to_string() }
}

fn key() -> AbsolutePackageKey {
    AbsolutePackageKey::from_string("https://x.example/repo/packages/foo#stable").unwrap()
}

fn pairs(c: &StoreConfig) -> Vec<(String, String)> {
    c.repos().into_iter().map(|r| (r.url, r.channel)).collect()
}

#[test]
fn config_default_is_empty() {
    let c = StoreConfig::new("/home/u/.cache/Pahkat".to_string(), false);
    assert!(c.repos().is_empty());
    assert_eq!(c.package_cache_path(), "/home/u/.cache/Pahkat/packages");
    assert_eq!(c.repo_cache_path(), "/home/u/.cache/Pahkat/repos");
    assert!(c.ui_setting("x").is_none());
    assert!(c.skipped_package(&key()).is_none());
}

#[test]
fn config_add_remove_repo() {
    let mut c = StoreConfig::new("/cache/".to_string(), false);
    c.add_repo(rec("https://x.example/repo/", "stable")).unwrap();
    assert_eq!(pairs(&c), vec![("https://x.example/repo/".to_string(), "stable".to_string())]);
    let removed = c.remove_repo(&rec("https://x.example/repo/", "stable")).unwrap();
    let hash = path_hash("https://x.example/repo/", "stable");
    assert_eq!(removed, Some(format!("/cache/repos/{}", hash)));
    assert!(c.repos().is_empty());
    assert_eq!(c.remove_repo(&rec("https://x.example/repo/", "stable")).unwrap(), None);
}

#[test]
fn config_add_repo_same_url_replaces_channel() {
    let mut c = StoreConfig::new("/cache".to_string(), false);
    c.add_repo(rec("https://a.example/", "stable")).unwrap();
    c.add_repo(rec("https://b.example/", "stable")).unwrap();
    c.add_repo(rec("https://a.example/", "beta")).unwrap();
    assert_eq!(
        pairs(&c),
        vec![
            ("https://a.example/".to_string(), "beta".to_string()),
            ("https://b.example/".to_string(), "stable".to_string()),
        ]
    );
}

#[test]
fn config_update_repo_by_position() {
    let mut c = StoreConfig::new("/cache".to_string(), false);
    c.add_repo(rec("https://a.example/", "stable")).unwrap();
    c.update_repo(0, rec("https://c.example/", "beta")).unwrap();
    assert_eq!(pairs(&c), vec![("https://c.example/".to_string(), "beta".to_string())]);
    assert_eq!(c.update_repo(1, rec("https://d.example/", "x")), Err(ConfigError::IndexOutOfRange));
    c.set_repos(vec![]).unwrap();
    assert!(c.repos().is_empty());
}

#[test]
fn config_skipped_packages() {
    let mut c = StoreConfig::new("/cache".to_string(), false);
    c.add_skipped_package(key(), "1.2.3".to_string()).unwrap();
    assert_eq!(c.skipped_package(&key()), Some("1.2.3".to_string()));
    c.add_skipped_package(key(), "1.2.4".to_string()).unwrap();
    assert_eq!(c.skipped_package(&key()), Some("1.2.4".to_string()));
    assert_eq!(c.skipped_packages().len(), 1);
    c.remove_skipped_package(&key()).unwrap();
    assert_eq!(c.skipped_package(&key()), None);
    c.remove_skipped_package(&key()).unwrap();
}

#[test]
fn config_ui_settings() {
    let mut c = StoreConfig::new("/cache".to_string(), false);
    c.set_ui_setting("lang", Some("se".to_string())).unwrap();
    c.set_ui_setting("theme", Some("dark".to_string())).unwrap();
    c.set_ui_setting("lang", Some("nb".to_string())).unwrap();
    assert_eq!(c.ui_setting("lang"), Some("nb".to_string()));
    c.set_ui_setting("lang", None).unwrap();
    assert_eq!(c.ui_setting("lang"), None);
    assert_eq!(c.ui_settings(), vec![("theme".to_string(), "dark".to_string())]);
}

#[test]
fn config_read_only_refuses_changes() {
    let mut c = StoreConfig::from_document(
        vec![rec("https://a.example/", "stable")],
        &vec![(key(), "1.0.0".to_string())],
        "/cache".to_string(),
        &vec![("k".to_string(), "v".to_string()), ("k".to_string(), "w".to_string())],
        true,
    );
    assert!(c.is_read_only());
    assert_eq!(c.ui_setting("k"), Some("w".to_string()));
    assert_eq!(c.skipped_package(&key()), Some("1.0.0".to_string()));
    assert_eq!(c.add_repo(rec("https://b.example/", "x")), Err(ConfigError::ReadOnly));
    assert_eq!(c.remove_repo(&rec("https://a.example/", "stable")), Err(ConfigError::ReadOnly));
    assert_eq!(c.update_repo(0, rec("https://b.example/", "x")), Err(ConfigError::ReadOnly));
    assert_eq!(c.add_skipped_package(key(), "2.0.0".to_string()), Err(ConfigError::ReadOnly));
    assert_eq!(c.remove_skipped_package(&key()), Err(ConfigError::ReadOnly));
    assert_eq!(c.set_ui_setting("k", None), Err(ConfigError::ReadOnly));
    assert_eq!(c.set_cache_base_path("/x".to_string()), Err(ConfigError::ReadOnly));
    assert_eq!(pairs(&c), vec![("https://a.example/".to_string(), "stable".to_string())]);
    assert_eq!(c.cache_base_path(), "/cache");
}

#[test]
fn config_cache_base_moves() {
    let mut c = StoreConfig::new("/cache".to_string(), false);
    c.set_cache_base_path("/other".to_string()).unwrap();
    assert_eq!(c.repo_cache_path(), "/other/repos");
}

#[test]
fn config_skip_then_status() {
    let mut c = StoreConfig::new("/cache".to_string(), false);
    let k = InstallerKind::MacOS;
    c.add_skipped_package(key(), "1.2.3".to_string()).unwrap();
    let skipped = c.skipped_package(&key());
    assert_eq!(package_status(Some(k), k, skipped.as_deref(), Some("1.2.3"), "1.2.3"), Ok(PackageStatus::Skipped));
    c.remove_skipped_package(&key()).unwrap();
    let skipped = c.skipped_package(&key());
    assert_eq!(package_status(Some(k), k, skipped.as_deref(), Some("1.2.3"), "1.2.3"), Ok(PackageStatus::UpToDate));
}
