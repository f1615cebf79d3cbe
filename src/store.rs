use vstd::prelude::*;
use vstd::string::*;
use crate::status::{InstallerKind, PackageStatus};

verus! {

/// The install scope.
#[derive(Clone, Copy, Debug, PartialEq, Eq, Structural)]
pub enum InstallTarget {
    System,
    User,
}

/// A package's status together with the target it was found under.
#[derive(Clone, Copy, Debug, PartialEq, Eq, Structural)]
pub struct PackageStatusResponse {
    pub status: PackageStatus,
    pub target: InstallTarget,
}

/// Why an install could not start.
#[derive(Clone, Copy, Debug, PartialEq, Eq, Structural)]
pub enum MacOSInstallError {
    NoInstaller,
    WrongInstallerType,
    InvalidFileType,
    PackageNotInCache,
}

/// Why an uninstall could not start.
#[derive(Clone, Copy, Debug, PartialEq, Eq, Structural)]
pub enum MacOSUninstallError {
    NoInstaller,
    WrongInstallerType,
}

/// The target a foreign caller names by number: 0 is the system, anything
/// else the user.
pub fn parse_target(number: u8) -> (r: InstallTarget)
    ensures
        r == (if number == 0 { InstallTarget::System } else { InstallTarget::User }),
{
    if number == 0 {
        InstallTarget::System
    } else {
        InstallTarget::User
    }
}

/// Decides whether an install may start: the package needs an installer of
/// the backend's variant, and its artifact must already be downloaded.
pub fn check_install(installer: Option<InstallerKind>, backend: InstallerKind, in_cache: bool) -> (r: Result<(), MacOSInstallError>)
    ensures
        r == match installer {
            None => Err(MacOSInstallError::NoInstaller),
            Some(k) => if k != backend {
                Err(MacOSInstallError::WrongInstallerType)
            } else if !in_cache {
                Err(MacOSInstallError::PackageNotInCache)
            } else {
                Ok(())
            },
        },
{
    match installer {
        None => Err(MacOSInstallError::NoInstaller),
        Some(k) => if k != backend {
            Err(MacOSInstallError::WrongInstallerType)
        } else if !in_cache {
            Err(MacOSInstallError::PackageNotInCache)
        } else {
            Ok(())
        },
    }
}

/// Decides whether an uninstall may start: the package needs an installer
/// of the backend's variant.
pub fn check_uninstall(installer: Option<InstallerKind>, backend: InstallerKind) -> (r: Result<(), MacOSUninstallError>)
    ensures
        r == match installer {
            None => Err(MacOSUninstallError::NoInstaller),
            Some(k) => if k != backend {
                Err(MacOSUninstallError::WrongInstallerType)
            } else {
                Ok(())
            },
        },
{
    match installer {
        None => Err(MacOSUninstallError::NoInstaller),
        Some(k) => if k != backend {
            Err(MacOSUninstallError::WrongInstallerType)
        } else {
            Ok(())
        },
    }
}

/// The status reported for a target: a status error counts as not
/// installed.
pub open spec fn reported_status<E>(r: Result<PackageStatus, E>) -> PackageStatus {
    match r {
        Ok(s) => s,
        Err(_) => PackageStatus::NotInstalled,
    }
}

/// Which target a package's status is reported under: the system target
/// when it is installed there, the user target otherwise.
pub fn status_response<E>(system: Result<PackageStatus, E>, user: Result<PackageStatus, E>) -> (r: PackageStatusResponse)
    ensures
        reported_status(system) != PackageStatus::NotInstalled ==> r == (PackageStatusResponse {
            status: reported_status(system),
            target: InstallTarget::System,
        }),
        reported_status(system) == PackageStatus::NotInstalled ==> r == (PackageStatusResponse {
            status: reported_status(user),
            target: InstallTarget::User,
        }),
{
    let s = match system {
        Ok(v) => v,
        Err(_) => PackageStatus::NotInstalled,
    };
    if s != PackageStatus::NotInstalled {
        return PackageStatusResponse { status: s, target: InstallTarget::System };
    }
    let u = match user {
        Ok(v) => v,
        Err(_) => PackageStatus::NotInstalled,
    };
    PackageStatusResponse { status: u, target: InstallTarget::User }
}

/// The number of `/` in a path: its depth.
pub open spec fn separators(p: Seq<char>) -> nat
    decreases p.len(),
{
    if p.len() == 0 {
        0
    } else {
        separators(p.drop_last()) + if p.last() == '/' { 1nat } else { 0nat }
    }
}

/// The paths of depth `k`, in their order.
pub open spec fn at_depth(s: Seq<Seq<char>>, k: nat) -> Seq<Seq<char>>
    decreases s.len(),
{
    if s.len() == 0 {
        Seq::empty()
    } else if separators(s.last()) == k {
        at_depth(s.drop_last(), k).push(s.last())
    } else {
        at_depth(s.drop_last(), k)
    }
}

/// The greatest depth among the paths.
pub open spec fn deepest(s: Seq<Seq<char>>) -> nat
    decreases s.len(),
{
    if s.len() == 0 {
        0
    } else if separators(s.last()) > deepest(s.drop_last()) {
        separators(s.last())
    } else {
        deepest(s.drop_last())
    }
}

/// The paths of depth `k` down to 0, deepest first.
pub open spec fn depths_down_from(s: Seq<Seq<char>>, k: nat) -> Seq<Seq<char>>
    decreases k,
{
    if k == 0 {
        at_depth(s, 0)
    } else {
        at_depth(s, k) + depths_down_from(s, (k - 1) as nat)
    }
}

/// The order in which directories are removed: deepest first, so that a
/// directory goes after everything inside it; paths of equal depth keep
/// their order.
pub open spec fn removal_order(s: Seq<Seq<char>>) -> Seq<Seq<char>> {
    depths_down_from(s, deepest(s))
}

pub open spec fn texts(v: Seq<String>) -> Seq<Seq<char>> {
    v.map_values(|x: String| x@)
}

fn count_separators(p: &str) -> (r: usize)
    ensures
        r == separators(p@),
{
    let n = p.unicode_len();
    let mut i: usize = 0;
    let mut c: usize = 0;
    while i < n
        invariant
            n == p@.len(),
            i <= n,
            c <= i,
            c == separators(p@.take(i as int)),
        decreases n - i,
    {
        assert(p@.take(i + 1).drop_last() =~= p@.take(i as int));
        if p.get_char(i) == '/' {
            c = c + 1;
        }
        i = i + 1;
    }
    assert(p@.take(n as int) =~= p@);
    c
}

/// Orders directories for removal: deepest first by the number of `/` in
/// each path, paths of equal depth in their given order.
pub fn directory_removal_order(dirs: &Vec<String>) -> (r: Vec<String>)
    ensures
        texts(r@) == removal_order(texts(dirs@)),
{
    let ghost s = texts(dirs@);
    let mut depths: Vec<usize> = Vec::new();
    let mut hi: usize = 0;
    let mut i: usize = 0;
    while i < dirs.len()
        invariant
            s == texts(dirs@),
            i <= dirs@.len(),
            depths@.len() == i,
            forall|t: int| 0 <= t < i ==> depths@[t] as nat == separators(s[t]),
            hi as nat == deepest(s.take(i as int)),
        decreases dirs.len() - i,
    {
        let d = count_separators(dirs[i].as_str());
        assert(s.take(i + 1).drop_last() =~= s.take(i as int));
        depths.push(d);
        if d > hi {
            hi = d;
        }
        i = i + 1;
    }
    assert(s.take(dirs@.len() as int) =~= s);
    let mut out: Vec<String> = Vec::new();
    let mut k: usize = hi;
    let mut more = true;
    while more
        invariant
            s == texts(dirs@),
            depths@.len() == dirs@.len(),
            forall|x: int| 0 <= x < dirs@.len() ==> depths@[x] as nat == separators(s[x]),
            hi as nat == deepest(s),
            k <= hi,
            more ==> texts(out@) + depths_down_from(s, k as nat) == removal_order(s),
            !more ==> texts(out@) == removal_order(s),
        decreases k + (if more { 1int } else { 0int }),
    {
        let ghost before = texts(out@);
        let mut j: usize = 0;
        while j < dirs.len()
            invariant
                s == texts(dirs@),
                depths@.len() == dirs@.len(),
                forall|x: int| 0 <= x < dirs@.len() ==> depths@[x] as nat == separators(s[x]),
                j <= dirs@.len(),
                texts(out@) == before + at_depth(s.take(j as int), k as nat),
            decreases dirs.len() - j,
        {
            assert(s.take(j + 1).drop_last() =~= s.take(j as int));
            assert(s.take(j + 1).last() == s[j as int]);
            assert(s[j as int] == dirs@[j as int]@);
            if depths[j] == k {
                let ghost mid = out@;
                out.push(dirs[j].clone());
                assert(texts(out@) =~= texts(mid).push(s[j as int]));
                assert(texts(out@) =~= before + at_depth(s.take(j + 1), k as nat));
            } else {
                assert(texts(out@) =~= before + at_depth(s.take(j + 1), k as nat));
            }
            j = j + 1;
        }
        assert(s.take(dirs@.len() as int) =~= s);
        if k == 0 {
            more = false;
        } else {
            assert(depths_down_from(s, k as nat) == at_depth(s, k as nat) + depths_down_from(s, (k - 1) as nat));
            assert(texts(out@) + depths_down_from(s, (k - 1) as nat) =~= before + depths_down_from(s, k as nat));
            k = k - 1;
        }
    }
    out
}

} // verus!
