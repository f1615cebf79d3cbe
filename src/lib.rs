//! Core of a package store: package keys, version precedence, installation
//! status, dependency resolution, the configuration document, downloads and
//! the transaction state machine.

pub mod assoc;
pub mod cache;
pub mod config;
pub mod download;
pub mod ffi;
pub mod key;
pub mod repo;
pub mod resolver;
pub mod status;
pub mod store;
pub mod transaction;
pub mod uninstall;
pub mod version;

pub use cache::path_hash;
pub use config::{ConfigError, RepoRecord, StoreConfig};
pub use download::{download_file_name, download_target, needs_download, progress_total};
pub use ffi::PackageKeyMarshaler;
pub use key::AbsolutePackageKey;
pub use repo::{RepoError, package_index_url, pick_index, root_index_url};
pub use resolver::{CatalogEntry, Dependency, PackageDependency, PackageDependencyError, resolve_install, resolve_order};
pub use status::{InstallerKind, PackageStatus, PackageStatusError, package_status, version_status_of};
pub use store::{
    InstallTarget, MacOSInstallError, MacOSUninstallError, PackageStatusResponse, check_install,
    check_uninstall, directory_removal_order, parse_target, status_response,
};
pub use transaction::{
    PackageAction, StepError, StepOutcome, Transaction, TransactionAction, TransactionCommand,
    TransactionEvent,
};
pub use uninstall::resolve_uninstall;
pub use version::{Identifier, Version};
