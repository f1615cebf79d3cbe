use pahkat_client::{
    check_install, check_uninstall, directory_removal_order, download_file_name, download_target,
    needs_download, parse_target, path_hash, progress_total, status_response, AbsolutePackageKey,
    InstallTarget, InstallerKind, MacOSInstallError, MacOSUninstallError, PackageAction, PackageStatus,
    PackageStatusError, StepError, StepOutcome, Transaction, TransactionAction, TransactionCommand,
    TransactionEvent,
};

#[test]
fn cache_dir_is_digest_of_url_and_channel() {
    let a = path_hash("https://x.example/repo/", "stable");
    assert_eq!(a, "0f17bccca965e46eab10cc14b8eb48b5e20518e945dc55bebff56a126c0286b5");
    assert_eq!(a, path_hash("https://x.example/repo/", "stable"));
    let b = path_hash("https://x.example/repo/", "beta");
    assert_eq!(b, "451a6ef6487f80ed05b93062842b682d34e4128be402d4de6ca783792e4a5ae3");
    assert_ne!(a, b);
}

#[test]
fn download_names() {
    assert_eq!(download_file_name("https://x.example/files/pkg-1.0.pkg"), Some("pkg-1.0.pkg".to_string()));
    assert_eq!(download_file_name("https://x.example/files/dir/"), Some("dir".to_string()));
    assert_eq!(download_file_name("https://x.example/a//b//"), Some("b".to_string()));
    assert_eq!(download_file_name("https://x.example/"), None);
    assert_eq!(download_file_name("not a url"), None);
    assert_eq!(download_target("/cache/packages", "https://x.example/f.tar.xz"), Some("/cache/packages/f.tar.xz".to_string()));
    assert!(needs_download(None, 10));
    assert!(needs_download(Some(5), 10));
    assert!(!needs_download(Some(10), 10));
    assert_eq!(progress_total(None), 0);
    assert_eq!(progress_total(Some(77)), 77);
}

fn action(id: &str, no_op: bool) -> TransactionAction {
    TransactionAction {
        key: AbsolutePackageKey {
            url: "https://x.example/repo/".to_string(),
            id: id.to_string(),
            channel: "stable".to_string(),
        },
        action: PackageAction::Install,
        no_op,
    }
}

#[test]
fn transaction_fail_stop() {
    let mut tx = Transaction::new(vec![action("C", true), action("B", false), action("A", false)]);
    assert_eq!(tx.next_command(), Some(TransactionCommand::Skip(0)));
    match tx.report(StepOutcome::Succeeded(PackageStatus::UpToDate)) {
        TransactionEvent::Completed(0, PackageStatus::UpToDate) => {}
        _ => panic!("expected completion of step 0"),
    }
    assert_eq!(tx.next_command(), Some(TransactionCommand::Perform(1, PackageAction::Install)));
    match tx.report(StepOutcome::Failed(StepError::NativeToolFailed("boom".to_string()))) {
        TransactionEvent::Failed(1, StepError::NativeToolFailed(msg)) => assert_eq!(msg, "boom"),
        _ => panic!("expected failure of step 1"),
    }
    assert!(tx.is_stopped());
    assert_eq!(tx.next_command(), None);
    assert_eq!(tx.action_key(2).id, "A");
}

#[test]
fn transaction_runs_in_order_and_cancels() {
    let mut tx = Transaction::new(vec![action("B", false), action("A", false)]);
    assert_eq!(tx.len(), 2);
    assert_eq!(tx.next_command(), Some(TransactionCommand::Perform(0, PackageAction::Install)));
    tx.report(StepOutcome::Succeeded(PackageStatus::UpToDate));
    tx.cancel();
    assert_eq!(tx.next_command(), None);
    let mut done = Transaction::new(vec![action("A", false)]);
    done.report(StepOutcome::Succeeded(PackageStatus::UpToDate));
    assert_eq!(done.next_command(), None);
    assert!(!done.is_stopped());
}

#[test]
fn store_targets_and_checks() {
    assert_eq!(parse_target(0), InstallTarget::System);
    assert_eq!(parse_target(1), InstallTarget::User);
    assert_eq!(parse_target(255), InstallTarget::User);
    let m = InstallerKind::MacOS;
    assert_eq!(check_install(None, m, true), Err(MacOSInstallError::NoInstaller));
    assert_eq!(check_install(Some(InstallerKind::Windows), m, true), Err(MacOSInstallError::WrongInstallerType));
    assert_eq!(check_install(Some(m), m, false), Err(MacOSInstallError::PackageNotInCache));
    assert_eq!(check_install(Some(m), m, true), Ok(()));
    assert_eq!(check_uninstall(None, m), Err(MacOSUninstallError::NoInstaller));
    assert_eq!(check_uninstall(Some(InstallerKind::Tarball), m), Err(MacOSUninstallError::WrongInstallerType));
    assert_eq!(check_uninstall(Some(m), m), Ok(()));
}

#[test]
fn store_status_response_prefers_system() {
    let r = status_response::<PackageStatusError>(Ok(PackageStatus::UpToDate), Ok(PackageStatus::RequiresUpdate));
    assert_eq!((r.status, r.target), (PackageStatus::UpToDate, InstallTarget::System));
    let r = status_response(Err(PackageStatusError::ParsingVersion), Ok(PackageStatus::RequiresUpdate));
    assert_eq!((r.status, r.target), (PackageStatus::RequiresUpdate, InstallTarget::User));
    let r = status_response::<PackageStatusError>(Ok(PackageStatus::NotInstalled), Err(PackageStatusError::NoInstaller));
    assert_eq!((r.status, r.target), (PackageStatus::NotInstalled, InstallTarget::User));
}

#[test]
fn uninstall_removes_deepest_directories_first() {
    let dirs = vec![
        "/Library/A".to_string(),
        "/Library/A/B/C".to_string(),
        "/Library".to_string(),
        "/Library/A/B".to_string(),
        "/Library/X".to_string(),
    ];
    assert_eq!(
        directory_removal_order(&dirs),
        vec!["/Library/A/B/C", "/Library/A/B", "/Library/A", "/Library/X", "/Library"]
    );
    assert!(directory_removal_order(&vec![]).is_empty());
}

#[test]
fn repo_index_locations() {
    assert_eq!(pahkat_client::root_index_url("https://x.example/repo/"), "https://x.example/repo/index.json");
    assert_eq!(
        pahkat_client::package_index_url("https://x.example/repo/", "foo", "stable", "stable"),
        "https://x.example/repo/packages/foo/index.json"
    );
    assert_eq!(
        pahkat_client::package_index_url("https://x.example/repo/", "foo", "beta", "stable"),
        "https://x.example/repo/packages/foo/index.beta.json"
    );
    assert_eq!(
        pahkat_client::pick_index(Some("new".to_string()), Some("old".to_string())),
        Ok(("new".to_string(), true))
    );
    assert_eq!(pahkat_client::pick_index(None, Some("old".to_string())), Ok(("old".to_string(), false)));
    assert_eq!(pahkat_client::pick_index(None, None), Err(pahkat_client::RepoError::Network));
}
