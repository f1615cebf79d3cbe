use vstd::prelude::*;
use vstd::string::*;
use std::cmp::Ordering;
use crate::version::{SemVer, Version, semver_of, version_order, bytes_order, idents_order, ident_order, IdentView};

verus! {

/// The variant of installer a package declares, and the variant a backend
/// drives.
#[derive(Clone, Copy, Debug, PartialEq, Eq, Structural)]
pub enum InstallerKind {
    MacOS,
    Windows,
    Tarball,
}

/// Installation status of a package against a target.
#[derive(Clone, Copy, Debug, PartialEq, Eq, Structural)]
pub enum PackageStatus {
    NotInstalled,
    UpToDate,
    RequiresUpdate,
    Skipped,
}

/// Why a status could not be computed.
#[derive(Clone, Copy, Debug, PartialEq, Eq, Structural)]
pub enum PackageStatusError {
    NoInstaller,
    WrongInstallerType,
    ParsingVersion,
    InvalidInstallPath,
    InvalidMetadata,
}

pub open spec fn status_code(s: PackageStatus) -> u8 {
    match s {
        PackageStatus::NotInstalled => 0,
        PackageStatus::UpToDate => 1,
        PackageStatus::RequiresUpdate => 2,
        PackageStatus::Skipped => 3,
    }
}

pub open spec fn status_text(s: PackageStatus) -> Seq<char> {
    match s {
        PackageStatus::NotInstalled => "Not installed"@,
        PackageStatus::UpToDate => "Up to date"@,
        PackageStatus::RequiresUpdate => "Requires update"@,
        PackageStatus::Skipped => "Skipped"@,
    }
}

pub open spec fn status_error_text(e: PackageStatusError) -> Seq<char> {
    match e {
        PackageStatusError::NoInstaller => "Error: No installer"@,
        PackageStatusError::WrongInstallerType => "Error: Wrong installer type"@,
        PackageStatusError::ParsingVersion => "Error: Could not parse version"@,
        PackageStatusError::InvalidInstallPath => "Error: Invalid install path"@,
        PackageStatusError::InvalidMetadata => "Error: Invalid metadata"@,
    }
}

impl PackageStatus {
    /// The status as a small integer, for foreign callers.
    pub fn to_u8(&self) -> (r: u8)
        ensures
            r == status_code(*self),
    {
        match self {
            PackageStatus::NotInstalled => 0,
            PackageStatus::UpToDate => 1,
            PackageStatus::RequiresUpdate => 2,
            PackageStatus::Skipped => 3,
        }
    }

    /// A human-readable description.
    pub fn description(&self) -> (r: String)
        ensures
            r@ == status_text(*self),
    {
        match self {
            PackageStatus::NotInstalled => String::from_str("Not installed"),
            PackageStatus::UpToDate => String::from_str("Up to date"),
            PackageStatus::RequiresUpdate => String::from_str("Requires update"),
            PackageStatus::Skipped => String::from_str("Skipped"),
        }
    }
}

impl PackageStatusError {
    /// A human-readable description.
    pub fn description(&self) -> (r: String)
        ensures
            r@ == status_error_text(*self),
    {
        match self {
            PackageStatusError::NoInstaller => String::from_str("Error: No installer"),
            PackageStatusError::WrongInstallerType => String::from_str("Error: Wrong installer type"),
            PackageStatusError::ParsingVersion => String::from_str("Error: Could not parse version"),
            PackageStatusError::InvalidInstallPath => String::from_str("Error: Invalid install path"),
            PackageStatusError::InvalidMetadata => String::from_str("Error: Invalid metadata"),
        }
    }
}

/// The status of an installed version against the declared one.
pub open spec fn version_status(installed: SemVer, declared: SemVer) -> PackageStatus {
    if version_order(declared, installed) == Ordering::Greater {
        PackageStatus::RequiresUpdate
    } else {
        PackageStatus::UpToDate
    }
}

/// The status resolver: installer checks, the skip decision, the receipt,
/// then version precedence.
pub open spec fn status_spec(
    installer: Option<InstallerKind>,
    backend: InstallerKind,
    skipped: Option<Seq<char>>,
    installed: Option<Seq<char>>,
    declared: Seq<char>,
) -> Result<PackageStatus, PackageStatusError> {
    match installer {
        None => Err(PackageStatusError::NoInstaller),
        Some(kind) => if kind != backend {
            Err(PackageStatusError::WrongInstallerType)
        } else if skipped is Some && installed == skipped {
            Ok(PackageStatus::Skipped)
        } else {
            match installed {
                None => Ok(PackageStatus::NotInstalled),
                Some(text) => match (semver_of(text), semver_of(declared)) {
                    (Some(i), Some(d)) => Ok(version_status(i, d)),
                    _ => Err(PackageStatusError::ParsingVersion),
                },
            }
        },
    }
}

/// Compares the installed version with the declared one.
pub fn version_status_of(installed: &Version, declared: &Version) -> (r: PackageStatus)
    ensures
        r == version_status(installed@, declared@),
{
    match declared.precedence(installed) {
        Ordering::Greater => PackageStatus::RequiresUpdate,
        _ => PackageStatus::UpToDate,
    }
}

fn same_text(a: Option<&str>, b: Option<&str>) -> (r: bool)
    ensures
        r == (a is Some && b is Some && a->0@ == b->0@),
{
    match (a, b) {
        (Some(x), Some(y)) => String::from_str(x) == String::from_str(y),
        _ => false,
    }
}

/// Computes the status of a package: `installer` is the variant the package
/// declares, `backend` the variant the store drives, `skipped` the version
/// the user chose to skip, `installed` the version the receipt records and
/// `declared` the package's version.
pub fn package_status(
    installer: Option<InstallerKind>,
    backend: InstallerKind,
    skipped: Option<&str>,
    installed: Option<&str>,
    declared: &str,
) -> (r: Result<PackageStatus, PackageStatusError>)
    ensures
        r == status_spec(
            installer,
            backend,
            match skipped { Some(s) => Some(s@), None => None },
            match installed { Some(s) => Some(s@), None => None },
            declared@,
        ),
{
    let kind = match installer {
        None => return Err(PackageStatusError::NoInstaller),
        Some(k) => k,
    };
    if kind != backend {
        return Err(PackageStatusError::WrongInstallerType);
    }
    if same_text(skipped, installed) {
        return Ok(PackageStatus::Skipped);
    }
    let text = match installed {
        None => return Ok(PackageStatus::NotInstalled),
        Some(t) => t,
    };
    let iv = Version::parse(text);
    let dv = Version::parse(declared);
    match (iv, dv) {
        (Some(i), Some(d)) => Ok(version_status_of(&i, &d)),
        _ => Err(PackageStatusError::ParsingVersion),
    }
}

proof fn lemma_bytes_order_refl(a: Seq<u8>)
    ensures
        bytes_order(a, a) == Ordering::Equal,
    decreases a.len(),
{
    if a.len() > 0 {
        lemma_bytes_order_refl(a.drop_first());
    }
}

proof fn lemma_idents_order_refl(a: Seq<IdentView>)
    ensures
        idents_order(a, a) == Ordering::Equal,
    decreases a.len(),
{
    if a.len() > 0 {
        match a[0] {
            IdentView::AlphaNumeric(x) => lemma_bytes_order_refl(x),
            _ => {},
        }
        assert(ident_order(a[0], a[0]) == Ordering::Equal);
        lemma_idents_order_refl(a.drop_first());
    }
}

/// Every version has the same precedence as itself.
pub proof fn lemma_version_order_refl(v: SemVer)
    ensures
        version_order(v, v) == Ordering::Equal,
{
    lemma_idents_order_refl(v.pre);
}

/// Once version `v` is installed (and no skip applies), the status is
/// up to date exactly for declared versions that do not rank above `v`, and
/// requires an update for those that do.
pub proof fn lemma_status_monotone(
    backend: InstallerKind,
    skipped: Option<Seq<char>>,
    installed: Seq<char>,
    declared: Seq<char>,
)
    requires
        semver_of(installed) is Some,
        semver_of(declared) is Some,
        skipped != Some(installed),
    ensures
        ({
            let v = semver_of(installed)->0;
            let d = semver_of(declared)->0;
            let r = status_spec(Some(backend), backend, skipped, Some(installed), declared);
            &&& version_order(d, v) != Ordering::Greater ==> r == Ok::<PackageStatus, PackageStatusError>(PackageStatus::UpToDate)
            &&& version_order(d, v) == Ordering::Greater ==> r == Ok::<PackageStatus, PackageStatusError>(PackageStatus::RequiresUpdate)
        }),
{
}

} // verus!
