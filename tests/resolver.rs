use pahkat_client::{
    resolve_install, resolve_order, AbsolutePackageKey, CatalogEntry, Dependency, PackageDependencyError,
    PackageStatus,
};

fn entry(id: &str, version: &str, status: PackageStatus, deps: &[(&str, &str)]) -> CatalogEntry {
    CatalogEntry {
        key: AbsolutePackageKey {
            url: "https://x.example/repo/".to_string(),
            id: id.to_string(),
            channel: "stable".to_string(),
        },
        version: version.to_string(),
        status,
        dependencies: deps
            .iter()
            .map(|(d, r)| Dependency { id: d.to_string(), version: r.to_string() })
            .collect(),
    }
}

fn ids(list: &[pahkat_client::PackageDependency]) -> Vec<String> {
    list.iter().map(|d| d.id.id.clone()).collect()
}

#[test]
fn resolve_simple_chain() {
    let n = PackageStatus::NotInstalled;
    let cat = vec![
        entry("A", "1.0.0", n, &[("B", "*")]),
        entry("B", "1.0.0", n, &[("C", ">=1.0.0")]),
        entry("C", "1.2.0", n, &[]),
    ];
    let list = resolve_install(&cat, "A").unwrap();
    assert_eq!(ids(&list), vec!["C", "B", "A"]);
    assert!(list.iter().all(|d| d.status == PackageStatus::NotInstalled));
    assert_eq!(list.iter().map(|d| d.level).collect::<Vec<_>>(), vec![2, 1, 0]);
    assert_eq!(list[0].version, "1.2.0");
}

#[test]
fn resolve_cycle_is_an_error() {
    let n = PackageStatus::NotInstalled;
    let cat = vec![entry("A", "1.0.0", n, &[("B", "*")]), entry("B", "1.0.0", n, &[("A", "*")])];
    assert_eq!(resolve_install(&cat, "A").err(), Some(PackageDependencyError::Cycle));
    let self_loop = vec![entry("A", "1.0.0", n, &[("A", "*")])];
    assert_eq!(resolve_install(&self_loop, "A").err(), Some(PackageDependencyError::Cycle));
}

#[test]
fn resolve_diamond_lists_each_once_in_order() {
    let n = PackageStatus::NotInstalled;
    let cat = vec![
        entry("A", "1.0.0", n, &[("B", "*"), ("C", "*")]),
        entry("B", "1.0.0", n, &[("D", "*")]),
        entry("C", "1.0.0", n, &[("D", "*")]),
        entry("D", "1.0.0", PackageStatus::UpToDate, &[]),
        entry("E", "1.0.0", n, &[]),
    ];
    let (order, levels) = resolve_order(&cat, 0).unwrap();
    assert_eq!(order, vec![3, 1, 2, 0]);
    assert_eq!(levels, vec![2, 1, 1, 0]);
    let list = resolve_install(&cat, "A").unwrap();
    assert!(list[0].is_no_op());
    assert!(!list[3].is_no_op());
}

#[test]
fn resolve_missing_and_unsatisfied() {
    let n = PackageStatus::NotInstalled;
    let missing = vec![entry("A", "1.0.0", n, &[("Z", "*")])];
    assert_eq!(resolve_install(&missing, "A").err(), Some(PackageDependencyError::PackageNotFound));
    assert_eq!(resolve_install(&missing, "Q").err(), Some(PackageDependencyError::PackageNotFound));
    let old = vec![entry("A", "1.0.0", n, &[("B", ">=2.0.0")]), entry("B", "1.5.0", n, &[])];
    assert_eq!(resolve_install(&old, "A").err(), Some(PackageDependencyError::VersionNotFound));
}

#[test]
fn resolve_first_repository_wins() {
    let n = PackageStatus::NotInstalled;
    let cat = vec![
        entry("A", "1.0.0", n, &[("B", "^1.0")]),
        entry("B", "1.4.0", n, &[]),
        entry("B", "2.0.0", n, &[]),
    ];
    let (order, _) = resolve_order(&cat, 0).unwrap();
    assert_eq!(order, vec![1, 0]);
}

#[test]
fn resolve_uninstall_dependents_first() {
    let i = PackageStatus::UpToDate;
    let n = PackageStatus::NotInstalled;
    let cat = vec![
        entry("A", "1.0.0", i, &[("B", "*")]),
        entry("B", "1.0.0", i, &[("C", "*")]),
        entry("C", "1.0.0", i, &[]),
        entry("D", "1.0.0", n, &[("C", "*")]),
        entry("E", "1.0.0", i, &[]),
    ];
    assert_eq!(pahkat_client::resolve_uninstall(&cat, 2).unwrap(), vec![0, 1, 2]);
    assert_eq!(pahkat_client::resolve_uninstall(&cat, 0).unwrap(), vec![0]);
    assert_eq!(pahkat_client::resolve_uninstall(&cat, 4).unwrap(), vec![4]);
}

#[test]
fn resolve_uninstall_reports_broken_closure() {
    let i = PackageStatus::UpToDate;
    let cat = vec![entry("A", "1.0.0", i, &[("B", "*")]), entry("B", "1.0.0", i, &[("A", "*")])];
    assert_eq!(pahkat_client::resolve_uninstall(&cat, 0).err(), Some(PackageDependencyError::Cycle));
}

#[test]
fn dependency_error_text() {
    assert_eq!(PackageDependencyError::PackageNotFound.description(), "Error: Package not found");
    assert_eq!(PackageDependencyError::VersionNotFound.description(), "Error: Package version not found");
    assert_eq!(
        PackageDependencyError::PackageStatusError(pahkat_client::PackageStatusError::NoInstaller).description(),
        "Error: No installer"
    );
    assert_eq!(PackageDependencyError::Cycle.description(), "Error: Dependency cycle");
}
