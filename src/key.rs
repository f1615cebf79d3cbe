use vstd::prelude::*;
use vstd::string::*;

verus! {

/// The path of the URL that `url::Url::parse` makes of a text, when it
/// accepts the text as an absolute URL.
pub uninterp spec fn url_path_of(s: Seq<char>) -> Option<Seq<char>>;

/// Whether a text is an absolute URL.
pub open spec fn is_absolute_url(s: Seq<char>) -> bool {
    url_path_of(s) is Some
}

/// Relies on url::Url::parse and Url::path: whether the text parses as an
/// absolute URL, and the path of the result, depend on the text alone.
#[verifier::external_body]
pub(crate) fn parsed_url_path(s: &str) -> (r: Option<String>)
    ensures
        match r {
            Some(p) => url_path_of(s@) == Some(p@),
            None => url_path_of(s@) is None,
        },
{
    url::Url::parse(s).ok().map(|u| u.path().to_string())
}

/// A package key as a value: repository base URL, package id and channel.
pub struct KeyView {
    pub url: Seq<char>,
    pub id: Seq<char>,
    pub channel: Seq<char>,
}

/// The canonical identifier of a package across repositories.
#[derive(Clone, Debug, PartialEq, Eq, Hash)]
pub struct AbsolutePackageKey {
    pub url: String,
    pub id: String,
    pub channel: String,
}

impl View for AbsolutePackageKey {
    type V = KeyView;

    open spec fn view(&self) -> KeyView {
        KeyView { url: self.url@, id: self.id@, channel: self.channel@ }
    }
}

pub open spec fn packages_segment() -> Seq<char> {
    seq!['p', 'a', 'c', 'k', 'a', 'g', 'e', 's', '/']
}

pub open spec fn lacks(s: Seq<char>, c: char) -> bool {
    forall|i: int| 0 <= i < s.len() ==> s[i] != c
}

/// A well-formed key: the base is an absolute URL ending in `/`, the id is
/// one non-empty path segment and the channel a non-empty fragment.
pub open spec fn valid_key(k: KeyView) -> bool {
    &&& k.url.len() > 0
    &&& k.url.last() == '/'
    &&& lacks(k.url, '#')
    &&& is_absolute_url(k.url)
    &&& k.id.len() > 0
    &&& lacks(k.id, '/')
    &&& lacks(k.id, '#')
    &&& k.channel.len() > 0
    &&& lacks(k.channel, '#')
}

/// The string form `<base-url>packages/<id>#<channel>`.
pub open spec fn key_text(k: KeyView) -> Seq<char> {
    k.url + packages_segment() + k.id + seq!['#'] + k.channel
}

/// The key that a string names, if it names one.
pub open spec fn parse_key(s: Seq<char>) -> Option<KeyView> {
    if exists|k: KeyView| valid_key(k) && key_text(k) == s {
        Some(choose|k: KeyView| valid_key(k) && key_text(k) == s)
    } else {
        None
    }
}

proof fn lemma_key_text_shape(k: KeyView)
    ensures
        ({
            let s = key_text(k);
            let h = k.url.len() as int + 9 + k.id.len();
            &&& s.len() == h + 1 + k.channel.len()
            &&& s.subrange(0, k.url.len() as int) == k.url
            &&& s.subrange(k.url.len() as int, k.url.len() as int + 9) == packages_segment()
            &&& s.subrange(k.url.len() as int + 9, h) == k.id
            &&& s[h] == '#'
            &&& s.subrange(h + 1, s.len() as int) == k.channel
        }),
{
    let s = key_text(k);
    let h = k.url.len() as int + 9 + k.id.len();
    assert(s.subrange(0, k.url.len() as int) =~= k.url);
    assert(s.subrange(k.url.len() as int, k.url.len() as int + 9) =~= packages_segment());
    assert(s.subrange(k.url.len() as int + 9, h) =~= k.id);
    assert(s.subrange(h + 1, s.len() as int) =~= k.channel);
}

/// In a valid key's string the first `#` ends the id, and the `/` before
/// the id is the last one before that `#`.
proof fn lemma_key_hash_located(k: KeyView, h: int)
    requires
        valid_key(k),
        0 <= h < key_text(k).len(),
        key_text(k)[h] == '#',
        forall|j: int| 0 <= j < h ==> key_text(k)[j] != '#',
    ensures
        h == k.url.len() as int + 9 + k.id.len(),
        key_text(k)[k.url.len() as int + 8] == '/',
        forall|j: int| k.url.len() as int + 8 < j < h ==> key_text(k)[j] != '/',
{
    let s = key_text(k);
    let hh = k.url.len() as int + 9 + k.id.len();
    lemma_key_text_shape(k);
    lemma_key_first_hash(k);
    assert(h == hh);
    assert(s[k.url.len() as int + 8] == packages_segment()[8]);
    assert forall|j: int| k.url.len() as int + 8 < j < h implies s[j] != '/' by {
        assert(s[j] == k.id[j - k.url.len() as int - 9]);
    }
}

/// The parts of a valid key's string sit at fixed places: its first `#`
/// and the last `/` before that one.
proof fn lemma_key_parts_located(k: KeyView, h: int, slash: int)
    requires
        valid_key(k),
        0 <= slash < h < key_text(k).len(),
        key_text(k)[h] == '#',
        forall|j: int| 0 <= j < h ==> key_text(k)[j] != '#',
        key_text(k)[slash] == '/',
        forall|j: int| slash < j < h ==> key_text(k)[j] != '/',
    ensures
        h == k.url.len() as int + 9 + k.id.len(),
        slash == k.url.len() as int + 8,
        k.url == key_text(k).subrange(0, slash - 8),
        key_text(k).subrange(slash - 8, slash + 1) == packages_segment(),
        k.id == key_text(k).subrange(slash + 1, h),
        k.channel == key_text(k).subrange(h + 1, key_text(k).len() as int),
{
    lemma_key_hash_located(k, h);
    lemma_key_text_shape(k);
}

proof fn lemma_key_first_hash(k: KeyView)
    requires
        valid_key(k),
    ensures
        key_text(k)[k.url.len() as int + 9 + k.id.len()] == '#',
        forall|j: int| 0 <= j < k.url.len() as int + 9 + k.id.len() ==> key_text(k)[j] != '#',
{
    let s = key_text(k);
    let hh = k.url.len() as int + 9 + k.id.len();
    lemma_key_text_shape(k);
    assert forall|j: int| 0 <= j < hh implies s[j] != '#' by {
        if j < k.url.len() {
            assert(s[j] == s.subrange(0, k.url.len() as int)[j]);
        } else if j < k.url.len() as int + 9 {
            assert(s[j] == packages_segment()[j - k.url.len()]);
        } else {
            assert(s[j] == k.id[j - k.url.len() as int - 9]);
        }
    }
}

/// Two valid keys with the same string form are the same key.
proof fn lemma_key_text_injective(a: KeyView, b: KeyView)
    requires
        valid_key(a),
        valid_key(b),
        key_text(a) == key_text(b),
    ensures
        a == b,
{
    let h = b.url.len() as int + 9 + b.id.len();
    let slash = b.url.len() as int + 8;
    lemma_key_text_shape(b);
    lemma_key_first_hash(b);
    lemma_key_hash_located(b, h);
    lemma_key_parts_located(a, h, slash);
    lemma_key_parts_located(b, h, slash);
}

/// Serialising a valid key and parsing the text gives the key back.
pub proof fn lemma_key_round_trip(k: KeyView)
    requires
        valid_key(k),
    ensures
        parse_key(key_text(k)) == Some(k),
{
    let s = key_text(k);
    assert(exists|x: KeyView| valid_key(x) && key_text(x) == s);
    let c = choose|x: KeyView| valid_key(x) && key_text(x) == s;
    lemma_key_text_injective(c, k);
}

/// The checks that the text around a first `#` at `h` and the last `/`
/// before it at `slash` passes when it is a key's string form.
pub open spec fn key_checks(s: Seq<char>, h: int, slash: int) -> bool {
    &&& slash >= 9
    &&& slash + 1 < h
    &&& h + 1 < s.len()
    &&& s[slash - 9] == '/'
    &&& lacks(s.subrange(h + 1, s.len() as int), '#')
    &&& s.subrange(slash - 8, slash + 1) == packages_segment()
    &&& is_absolute_url(s.subrange(0, slash - 8))
}

proof fn lemma_key_checks_needed(s: Seq<char>, h: int, slash: int)
    requires
        0 <= slash < h < s.len(),
        s[h] == '#',
        forall|j: int| 0 <= j < h ==> s[j] != '#',
        s[slash] == '/',
        forall|j: int| slash < j < h ==> s[j] != '/',
        !key_checks(s, h, slash),
    ensures
        parse_key(s) is None,
{
    if exists|k: KeyView| valid_key(k) && key_text(k) == s {
        let k = choose|k: KeyView| valid_key(k) && key_text(k) == s;
        lemma_key_parts_located(k, h, slash);
        assert(s[slash - 9] == k.url.last());
        assert(s.subrange(h + 1, s.len() as int) == k.channel);
    }
}

proof fn lemma_key_from_checks(s: Seq<char>, h: int, slash: int)
    requires
        0 <= slash < h < s.len(),
        s[h] == '#',
        forall|j: int| 0 <= j < h ==> s[j] != '#',
        forall|j: int| slash < j < h ==> s[j] != '/',
        key_checks(s, h, slash),
    ensures
        ({
            let k = KeyView {
                url: s.subrange(0, slash - 8),
                id: s.subrange(slash + 1, h),
                channel: s.subrange(h + 1, s.len() as int),
            };
            valid_key(k) && key_text(k) == s && parse_key(s) == Some(k)
        }),
{
    let k = KeyView {
        url: s.subrange(0, slash - 8),
        id: s.subrange(slash + 1, h),
        channel: s.subrange(h + 1, s.len() as int),
    };
    assert(k.url + s.subrange(slash - 8, slash + 1) + k.id + seq!['#'] + k.channel =~= s);
    assert(key_text(k) == s);
    assert(k.url.last() == s[slash - 9]);
    assert(valid_key(k));
    lemma_key_round_trip(k);
}

fn lacks_from(s: &str, from: usize, c: char) -> (r: bool)
    requires
        from <= s@.len(),
    ensures
        r == lacks(s@.subrange(from as int, s@.len() as int), c),
{
    let n = s.unicode_len();
    let mut j: usize = from;
    while j < n
        invariant
            n == s@.len(),
            from <= j <= n,
            forall|i: int| from <= i < j ==> s@[i] != c,
        decreases n - j,
    {
        if s.get_char(j) == c {
            assert(s@.subrange(from as int, n as int)[j - from] == c);
            return false;
        }
        j = j + 1;
    }
    assert forall|i: int| 0 <= i < s@.subrange(from as int, n as int).len() implies s@.subrange(from as int, n as int)[i] != c by {
        assert(s@.subrange(from as int, n as int)[i] == s@[i + from]);
    }
    true
}

fn has_packages_segment_at(s: &str, at: usize) -> (r: bool)
    requires
        at + 9 <= s@.len() <= usize::MAX,
    ensures
        r == (s@.subrange(at as int, at + 9) == packages_segment()),
{
    let segment = s.substring_char(at, at + 9);
    let expected = "packages/";
    proof {
        reveal_strlit("packages/");
        assert(expected@ =~= packages_segment());
    }
    let mut i: usize = 0;
    while i < 9
        invariant
            segment@ == s@.subrange(at as int, at + 9),
            segment@.len() == 9,
            expected@ == packages_segment(),
            i <= 9,
            forall|t: int| 0 <= t < i ==> segment@[t] == packages_segment()[t],
        decreases 9 - i,
    {
        if segment.get_char(i) != expected.get_char(i) {
            return false;
        }
        i = i + 1;
    }
    assert(segment@ =~= packages_segment());
    true
}

impl AbsolutePackageKey {
    /// A copy of the key.
    pub fn duplicate(&self) -> (r: AbsolutePackageKey)
        ensures
            r@ == self@,
    {
        AbsolutePackageKey { url: self.url.clone(), id: self.id.clone(), channel: self.channel.clone() }
    }

    /// The canonical string form `<base-url>packages/<id>#<channel>`.
    pub fn to_string(&self) -> (r: String)
        ensures
            r@ == key_text(self@),
    {
        let mut r = self.url.clone();
        r.append("packages/");
        r.append(self.id.as_str());
        r.append("#");
        r.append(self.channel.as_str());
        proof {
            reveal_strlit("packages/");
            reveal_strlit("#");
            assert(r@ =~= key_text(self@));
        }
        r
    }

    /// Parses the canonical string form; fails exactly when the text is not
    /// the string form of a valid key.
    pub fn from_string(s: &str) -> (r: Result<AbsolutePackageKey, ()>)
        ensures
            match r {
                Ok(k) => parse_key(s@) == Some(k@) && valid_key(k@) && key_text(k@) == s@,
                Err(_) => parse_key(s@) is None,
            },
    {
        let n = s.unicode_len();
        let mut h: usize = 0;
        while h < n && s.get_char(h) != '#'
            invariant
                n == s@.len(),
                h <= n,
                forall|j: int| 0 <= j < h ==> s@[j] != '#',
            decreases n - h,
        {
            h = h + 1;
        }
        if h == n {
            proof {
                if exists|k: KeyView| valid_key(k) && key_text(k) == s@ {
                    let k = choose|k: KeyView| valid_key(k) && key_text(k) == s@;
                    lemma_key_first_hash(k);
                    lemma_key_text_shape(k);
                }
            }
            return Err(());
        }
        let mut t: usize = h;
        while t > 0 && s.get_char(t - 1) != '/'
            invariant
                n == s@.len(),
                t <= h < n,
                forall|j: int| t <= j < h ==> s@[j] != '/',
            decreases t,
        {
            t = t - 1;
        }
        if t == 0 {
            proof {
                if exists|k: KeyView| valid_key(k) && key_text(k) == s@ {
                    let k = choose|k: KeyView| valid_key(k) && key_text(k) == s@;
                    lemma_key_hash_located(k, h as int);
                }
            }
            return Err(());
        }
        let slash = t - 1;
        let mut ok = slash >= 9 && slash + 1 < h && h + 1 < n;
        if ok {
            ok = s.get_char(slash - 9) == '/';
        }
        if ok {
            ok = lacks_from(s, h + 1, '#');
        }
        if ok {
            ok = has_packages_segment_at(s, slash - 8);
        }
        if ok {
            ok = parsed_url_path(s.substring_char(0, slash - 8)).is_some();
        }
        if !ok {
            proof {
                lemma_key_checks_needed(s@, h as int, slash as int);
            }
            return Err(());
        }
        proof {
            lemma_key_from_checks(s@, h as int, slash as int);
        }
        let url = String::from_str(s.substring_char(0, slash - 8));
        let id = String::from_str(s.substring_char(slash + 1, h));
        let channel = String::from_str(s.substring_char(h + 1, n));
        Ok(AbsolutePackageKey { url, id, channel })
    }
}

} // verus!
