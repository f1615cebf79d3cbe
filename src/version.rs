use vstd::prelude::*;
use std::cmp::Ordering;

verus! {

/// A pre-release identifier as the precedence rules see it.
pub enum IdentView {
    Numeric(nat),
    AlphaNumeric(Seq<u8>),
}

/// A semantic version as the precedence rules see it: build metadata takes no
/// part in precedence and is not kept.
pub struct SemVer {
    pub major: nat,
    pub minor: nat,
    pub patch: nat,
    pub pre: Seq<IdentView>,
}

/// One dot-separated pre-release identifier.
#[derive(Clone, Debug, PartialEq, Eq)]
pub enum Identifier {
    Numeric(u64),
    /// The identifier's UTF-8 bytes.
    AlphaNumeric(Vec<u8>),
}

/// A parsed semantic version: the parts that decide precedence.
#[derive(Clone, Debug, PartialEq, Eq)]
pub struct Version {
    pub major: u64,
    pub minor: u64,
    pub patch: u64,
    pub pre: Vec<Identifier>,
}

impl View for Identifier {
    type V = IdentView;

    open spec fn view(&self) -> IdentView {
        match self {
            Identifier::Numeric(n) => IdentView::Numeric(*n as nat),
            Identifier::AlphaNumeric(s) => IdentView::AlphaNumeric(s@),
        }
    }
}

impl View for Version {
    type V = SemVer;

    open spec fn view(&self) -> SemVer {
        SemVer {
            major: self.major as nat,
            minor: self.minor as nat,
            patch: self.patch as nat,
            pre: ident_views(self.pre@),
        }
    }
}

pub open spec fn ident_views(s: Seq<Identifier>) -> Seq<IdentView> {
    s.map_values(|i: Identifier| i@)
}

pub open spec fn opt_version_view(v: Option<Version>) -> Option<SemVer> {
    match v {
        Some(x) => Some(x@),
        None => None,
    }
}

/// What `semver::Version::parse` makes of a text, when it accepts it.
pub uninterp spec fn semver_of(s: Seq<char>) -> Option<SemVer>;

pub open spec fn order_of(a: int, b: int) -> Ordering {
    if a < b {
        Ordering::Less
    } else if a > b {
        Ordering::Greater
    } else {
        Ordering::Equal
    }
}

/// Lexicographic order of byte strings (the order of `String`).
pub open spec fn bytes_order(a: Seq<u8>, b: Seq<u8>) -> Ordering
    decreases a.len(),
{
    if a.len() == 0 {
        if b.len() == 0 {
            Ordering::Equal
        } else {
            Ordering::Less
        }
    } else if b.len() == 0 {
        Ordering::Greater
    } else if a[0] != b[0] {
        order_of(a[0] as int, b[0] as int)
    } else {
        bytes_order(a.drop_first(), b.drop_first())
    }
}

/// Numeric identifiers sort before alphanumeric ones.
pub open spec fn ident_order(a: IdentView, b: IdentView) -> Ordering {
    match (a, b) {
        (IdentView::Numeric(x), IdentView::Numeric(y)) => order_of(x as int, y as int),
        (IdentView::Numeric(_), IdentView::AlphaNumeric(_)) => Ordering::Less,
        (IdentView::AlphaNumeric(_), IdentView::Numeric(_)) => Ordering::Greater,
        (IdentView::AlphaNumeric(x), IdentView::AlphaNumeric(y)) => bytes_order(x, y),
    }
}

/// Lexicographic order of identifier lists.
pub open spec fn idents_order(a: Seq<IdentView>, b: Seq<IdentView>) -> Ordering
    decreases a.len(),
{
    if a.len() == 0 {
        if b.len() == 0 {
            Ordering::Equal
        } else {
            Ordering::Less
        }
    } else if b.len() == 0 {
        Ordering::Greater
    } else if ident_order(a[0], b[0]) != Ordering::Equal {
        ident_order(a[0], b[0])
    } else {
        idents_order(a.drop_first(), b.drop_first())
    }
}

/// Semantic-version precedence: major, minor, patch, then a release ranks
/// above any of its pre-releases, and pre-releases compare by identifiers.
pub open spec fn version_order(a: SemVer, b: SemVer) -> Ordering {
    if a.major != b.major {
        order_of(a.major as int, b.major as int)
    } else if a.minor != b.minor {
        order_of(a.minor as int, b.minor as int)
    } else if a.patch != b.patch {
        order_of(a.patch as int, b.patch as int)
    } else if a.pre.len() == 0 && b.pre.len() == 0 {
        Ordering::Equal
    } else if a.pre.len() == 0 {
        Ordering::Greater
    } else if b.pre.len() == 0 {
        Ordering::Less
    } else {
        idents_order(a.pre, b.pre)
    }
}

fn cmp_u64(a: u64, b: u64) -> (r: Ordering)
    ensures
        r == order_of(a as int, b as int),
{
    if a < b {
        Ordering::Less
    } else if a > b {
        Ordering::Greater
    } else {
        Ordering::Equal
    }
}

fn cmp_bytes(a: &Vec<u8>, b: &Vec<u8>) -> (r: Ordering)
    ensures
        r == bytes_order(a@, b@),
{
    let mut i: usize = 0;
    assert(a@.skip(0) =~= a@);
    assert(b@.skip(0) =~= b@);
    while i < a.len() && i < b.len() && a[i] == b[i]
        invariant
            i <= a.len(),
            i <= b.len(),
            bytes_order(a@, b@) == bytes_order(a@.skip(i as int), b@.skip(i as int)),
        decreases a.len() - i,
    {
        assert(a@.skip(i as int).drop_first() =~= a@.skip(i + 1));
        assert(b@.skip(i as int).drop_first() =~= b@.skip(i + 1));
        i = i + 1;
    }
    if i == a.len() {
        if i == b.len() {
            Ordering::Equal
        } else {
            Ordering::Less
        }
    } else if i == b.len() {
        Ordering::Greater
    } else {
        cmp_u64(a[i] as u64, b[i] as u64)
    }
}

fn cmp_identifier(a: &Identifier, b: &Identifier) -> (r: Ordering)
    ensures
        r == ident_order(a@, b@),
{
    match (a, b) {
        (Identifier::Numeric(x), Identifier::Numeric(y)) => cmp_u64(*x, *y),
        (Identifier::Numeric(_), Identifier::AlphaNumeric(_)) => Ordering::Less,
        (Identifier::AlphaNumeric(_), Identifier::Numeric(_)) => Ordering::Greater,
        (Identifier::AlphaNumeric(x), Identifier::AlphaNumeric(y)) => cmp_bytes(x, y),
    }
}

fn cmp_identifiers(a: &Vec<Identifier>, b: &Vec<Identifier>) -> (r: Ordering)
    ensures
        r == idents_order(ident_views(a@), ident_views(b@)),
{
    let ghost av = ident_views(a@);
    let ghost bv = ident_views(b@);
    let mut i: usize = 0;
    assert(av.skip(0) =~= av);
    assert(bv.skip(0) =~= bv);
    while i < a.len() && i < b.len()
        invariant
            i <= a.len(),
            i <= b.len(),
            av == ident_views(a@),
            bv == ident_views(b@),
            idents_order(av, bv) == idents_order(av.skip(i as int), bv.skip(i as int)),
        decreases a.len() - i,
    {
        let c = cmp_identifier(&a[i], &b[i]);
        assert(av.skip(i as int).len() > 0 && bv.skip(i as int).len() > 0);
        assert(av.skip(i as int)[0] == a@[i as int]@);
        assert(bv.skip(i as int)[0] == b@[i as int]@);
        match c {
            Ordering::Equal => {},
            _ => {
                return c;
            },
        }
        assert(av.skip(i as int).drop_first() =~= av.skip(i + 1));
        assert(bv.skip(i as int).drop_first() =~= bv.skip(i + 1));
        i = i + 1;
    }
    if i == a.len() {
        if i == b.len() {
            Ordering::Equal
        } else {
            Ordering::Less
        }
    } else {
        Ordering::Greater
    }
}

impl Version {
    /// Compares two versions by semantic-version precedence.
    pub fn precedence(&self, other: &Version) -> (r: Ordering)
        ensures
            r == version_order(self@, other@),
    {
        if self.major != other.major {
            cmp_u64(self.major, other.major)
        } else if self.minor != other.minor {
            cmp_u64(self.minor, other.minor)
        } else if self.patch != other.patch {
            cmp_u64(self.patch, other.patch)
        } else if self.pre.len() == 0 && other.pre.len() == 0 {
            Ordering::Equal
        } else if self.pre.len() == 0 {
            Ordering::Greater
        } else if other.pre.len() == 0 {
            Ordering::Less
        } else {
            cmp_identifiers(&self.pre, &other.pre)
        }
    }

    /// Parses a semantic version; `None` where the text is not one.
    pub fn parse(s: &str) -> (r: Option<Version>)
        ensures
            opt_version_view(r) == semver_of(s@),
    {
        parse_semver(s)
    }
}

/// Relies on semver::Version::parse: whether a text parses, and the major,
/// minor, patch and pre-release parts it yields, depend on the text alone.
#[verifier::external_body]
fn parse_semver(s: &str) -> (r: Option<Version>)
    ensures
        opt_version_view(r) == semver_of(s@),
{
    let v = semver::Version::parse(s).ok()?;
    let pre = v.pre.into_iter().map(|i| match i {
        semver::Identifier::Numeric(n) => Identifier::Numeric(n),
        semver::Identifier::AlphaNumeric(a) => Identifier::AlphaNumeric(a.into_bytes()),
    }).collect();
    Some(Version { major: v.major, minor: v.minor, patch: v.patch, pre })
}

} // verus!
