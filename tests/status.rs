use pahkat_client::{
    package_status, version_status_of, InstallerKind, PackageStatus, PackageStatusError, Version,
};
use std::cmp::Ordering;

fn v(s: &str) -> Version {
    Version::parse(s).unwrap()
}

#[test]
fn version_parse_keeps_parts() {
    let x = v("1.2.3-alpha.7");
    assert_eq!((x.major, x.minor, x.patch), (1, 2, 3));
    assert_eq!(x.pre.len(), 2);
    assert!(Version::parse("1.2").is_none());
    assert!(Version::parse("banana").is_none());
}

#[test]
fn version_precedence() {
    assert_eq!(v("1.2.3").precedence(&v("1.2.3")), Ordering::Equal);
    assert_eq!(v("1.2.3").precedence(&v("1.10.0")), Ordering::Less);
    assert_eq!(v("2.0.0").precedence(&v("1.99.99")), Ordering::Greater);
    assert_eq!(v("1.0.0-alpha").precedence(&v("1.0.0")), Ordering::Less);
    assert_eq!(v("1.0.0-alpha").precedence(&v("1.0.0-alpha.1")), Ordering::Less);
    assert_eq!(v("1.0.0-alpha.1").precedence(&v("1.0.0-alpha.beta")), Ordering::Less);
    assert_eq!(v("1.0.0-beta.11").precedence(&v("1.0.0-beta.2")), Ordering::Greater);
    assert_eq!(v("1.0.0-rc.1").precedence(&v("1.0.0-beta")), Ordering::Greater);
    assert_eq!(v("1.0.0+build.5").precedence(&v("1.0.0")), Ordering::Equal);
}

#[test]
fn status_follows_installed_version() {
    let installed = v("1.2.3");
    assert_eq!(version_status_of(&installed, &v("1.2.3")), PackageStatus::UpToDate);
    assert_eq!(version_status_of(&installed, &v("1.2.0")), PackageStatus::UpToDate);
    assert_eq!(version_status_of(&installed, &v("1.2.4")), PackageStatus::RequiresUpdate);
}

#[test]
fn status_monotone_after_install() {
    let k = InstallerKind::MacOS;
    for d in ["0.9.0", "1.2.2", "1.2.3", "1.2.3-rc.1"] {
        assert_eq!(package_status(Some(k), k, None, Some("1.2.3"), d), Ok(PackageStatus::UpToDate), "{}", d);
    }
    for d in ["1.2.4", "2.0.0", "1.3.0-alpha"] {
        assert_eq!(package_status(Some(k), k, None, Some("1.2.3"), d), Ok(PackageStatus::RequiresUpdate), "{}", d);
    }
}

#[test]
fn status_skip_scenario() {
    let k = InstallerKind::Windows;
    assert_eq!(package_status(Some(k), k, Some("1.2.3"), Some("1.2.3"), "1.2.3"), Ok(PackageStatus::Skipped));
    assert_eq!(package_status(Some(k), k, Some("1.2.3"), Some("1.2.3"), "1.3.0"), Ok(PackageStatus::Skipped));
    assert_eq!(package_status(Some(k), k, None, Some("1.2.3"), "1.2.3"), Ok(PackageStatus::UpToDate));
    assert_eq!(package_status(Some(k), k, Some("1.2.2"), Some("1.2.3"), "1.3.0"), Ok(PackageStatus::RequiresUpdate));
}

#[test]
fn status_errors_and_absence() {
    let k = InstallerKind::Tarball;
    assert_eq!(package_status(None, k, None, Some("1.0.0"), "1.0.0"), Err(PackageStatusError::NoInstaller));
    assert_eq!(
        package_status(Some(InstallerKind::MacOS), k, None, Some("1.0.0"), "1.0.0"),
        Err(PackageStatusError::WrongInstallerType)
    );
    assert_eq!(package_status(Some(k), k, None, None, "1.0.0"), Ok(PackageStatus::NotInstalled));
    assert_eq!(package_status(Some(k), k, None, Some("garbage"), "1.0.0"), Err(PackageStatusError::ParsingVersion));
    assert_eq!(package_status(Some(k), k, None, Some("1.0.0"), "x.y"), Err(PackageStatusError::ParsingVersion));
}

#[test]
fn status_codes_and_text() {
    assert_eq!(PackageStatus::NotInstalled.to_u8(), 0);
    assert_eq!(PackageStatus::UpToDate.to_u8(), 1);
    assert_eq!(PackageStatus::RequiresUpdate.to_u8(), 2);
    assert_eq!(PackageStatus::Skipped.to_u8(), 3);
    assert_eq!(PackageStatus::RequiresUpdate.description(), "Requires update");
    assert_eq!(PackageStatusError::ParsingVersion.description(), "Error: Could not parse version");
}
