use vstd::prelude::*;
use vstd::string::*;
use crate::assoc::{assoc, unique_keys, lemma_assoc_absent, lemma_assoc_index, lemma_assoc_push, lemma_assoc_remove, lemma_assoc_update};
use crate::cache::{cache_dir_name, join, join_path, path_hash};
use crate::key::{AbsolutePackageKey, KeyView};
use crate::status::{InstallerKind, PackageStatus, PackageStatusError, lemma_version_order_refl, status_spec};
use crate::version::semver_of;

verus! {

/// A configured repository: its URL and the channel followed.
pub struct RepoRecord {
    pub url: String,
    pub channel: String,
}

pub struct RepoView {
    pub url: Seq<char>,
    pub channel: Seq<char>,
}

impl View for RepoRecord {
    type V = RepoView;

    open spec fn view(&self) -> RepoView {
        RepoView { url: self.url@, channel: self.channel@ }
    }
}

impl RepoRecord {
    /// A copy of the record.
    pub fn duplicate(&self) -> (r: RepoRecord)
        ensures
            r@ == self@,
    {
        RepoRecord { url: self.url.clone(), channel: self.channel.clone() }
    }
}

/// Why a configuration change was refused.
#[derive(Clone, Copy, Debug, PartialEq, Eq, Structural)]
pub enum ConfigError {
    /// The configuration was opened read-only.
    ReadOnly,
    /// No repository sits at the given position.
    IndexOutOfRange,
}

/// The configuration document as a value.
pub struct ConfigView {
    pub repos: Seq<RepoView>,
    pub skipped: Map<KeyView, Seq<char>>,
    pub cache_path: Seq<char>,
    pub ui: Map<Seq<char>, Seq<char>>,
    pub read_only: bool,
}

pub open spec fn repo_views(s: Seq<RepoRecord>) -> Seq<RepoView> {
    s.map_values(|r: RepoRecord| r@)
}

pub open spec fn skip_pairs(s: Seq<(AbsolutePackageKey, String)>) -> Seq<(KeyView, Seq<char>)> {
    s.map_values(|p: (AbsolutePackageKey, String)| (p.0@, p.1@))
}

pub open spec fn text_pairs(s: Seq<(String, String)>) -> Seq<(Seq<char>, Seq<char>)> {
    s.map_values(|p: (String, String)| (p.0@, p.1@))
}

pub open spec fn first_url_from(rs: Seq<RepoView>, url: Seq<char>, i: int) -> Option<int>
    decreases rs.len() - i,
{
    if i < 0 || i >= rs.len() {
        None
    } else if rs[i].url == url {
        Some(i)
    } else {
        first_url_from(rs, url, i + 1)
    }
}

/// The position of the first record with the given URL.
pub open spec fn first_url(rs: Seq<RepoView>, url: Seq<char>) -> Option<int> {
    first_url_from(rs, url, 0)
}

pub open spec fn first_record_from(rs: Seq<RepoView>, rec: RepoView, i: int) -> Option<int>
    decreases rs.len() - i,
{
    if i < 0 || i >= rs.len() {
        None
    } else if rs[i] == rec {
        Some(i)
    } else {
        first_record_from(rs, rec, i + 1)
    }
}

/// The position of the first record equal to `rec`.
pub open spec fn first_record(rs: Seq<RepoView>, rec: RepoView) -> Option<int> {
    first_record_from(rs, rec, 0)
}

/// The repository list after adding `rec`: a record with the same URL has
/// its channel replaced, otherwise the record goes last.
pub open spec fn repos_with(rs: Seq<RepoView>, rec: RepoView) -> Seq<RepoView> {
    match first_url(rs, rec.url) {
        Some(i) => rs.update(i, rec),
        None => rs.push(rec),
    }
}

/// The repository list after removing the first record equal to `rec`.
pub open spec fn repos_without(rs: Seq<RepoView>, rec: RepoView) -> Seq<RepoView> {
    match first_record(rs, rec) {
        Some(i) => rs.remove(i),
        None => rs,
    }
}

/// The configuration document: repositories, skipped versions, the cache
/// base path and free-form settings of user interfaces.
pub struct StoreConfig {
    repos: Vec<RepoRecord>,
    skipped_packages: Vec<(AbsolutePackageKey, String)>,
    cache_path: String,
    ui: Vec<(String, String)>,
    read_only: bool,
}

impl View for StoreConfig {
    type V = ConfigView;

    closed spec fn view(&self) -> ConfigView {
        ConfigView {
            repos: repo_views(self.repos@),
            skipped: assoc(skip_pairs(self.skipped_packages@)),
            cache_path: self.cache_path@,
            ui: assoc(text_pairs(self.ui@)),
            read_only: self.read_only,
        }
    }
}

fn same_key(a: &AbsolutePackageKey, b: &AbsolutePackageKey) -> (r: bool)
    ensures
        r == (a@ == b@),
{
    a.url == b.url && a.id == b.id && a.channel == b.channel
}

fn copy_text(s: &String) -> (r: String)
    ensures
        r@ == s@,
{
    s.clone()
}

impl StoreConfig {
    /// The lists of pairs hold each key once.
    pub closed spec fn wf(&self) -> bool {
        &&& unique_keys(skip_pairs(self.skipped_packages@))
        &&& unique_keys(text_pairs(self.ui@))
    }

    /// An empty configuration whose caches live under `cache_path`.
    pub fn new(cache_path: String, read_only: bool) -> (r: StoreConfig)
        ensures
            r.wf(),
            r@.repos == Seq::<RepoView>::empty(),
            r@.skipped == Map::<KeyView, Seq<char>>::empty(),
            r@.cache_path == cache_path@,
            r@.ui == Map::<Seq<char>, Seq<char>>::empty(),
            r@.read_only == read_only,
    {
        let r = StoreConfig {
            repos: Vec::new(),
            skipped_packages: Vec::new(),
            cache_path,
            ui: Vec::new(),
            read_only,
        };
        proof {
            assert(skip_pairs(r.skipped_packages@) =~= Seq::empty());
            assert(text_pairs(r.ui@) =~= Seq::empty());
            assert(repo_views(r.repos@) =~= Seq::empty());
        }
        r
    }

    fn skipped_index(&self, key: &AbsolutePackageKey) -> (r: Option<usize>)
        ensures
            match r {
                Some(i) => i < self.skipped_packages@.len() && skip_pairs(self.skipped_packages@)[i as int].0 == key@,
                None => forall|i: int| 0 <= i < self.skipped_packages@.len() ==> skip_pairs(self.skipped_packages@)[i].0 != key@,
            },
    {
        let mut i: usize = 0;
        while i < self.skipped_packages.len()
            invariant
                i <= self.skipped_packages@.len(),
                forall|t: int| 0 <= t < i ==> skip_pairs(self.skipped_packages@)[t].0 != key@,
            decreases self.skipped_packages.len() - i,
        {
            if same_key(&self.skipped_packages[i].0, key) {
                return Some(i);
            }
            i = i + 1;
        }
        None
    }

    fn ui_index(&self, key: &str) -> (r: Option<usize>)
        ensures
            match r {
                Some(i) => i < self.ui@.len() && text_pairs(self.ui@)[i as int].0 == key@,
                None => forall|i: int| 0 <= i < self.ui@.len() ==> text_pairs(self.ui@)[i].0 != key@,
            },
    {
        let k = String::from_str(key);
        let mut i: usize = 0;
        while i < self.ui.len()
            invariant
                k@ == key@,
                i <= self.ui@.len(),
                forall|t: int| 0 <= t < i ==> text_pairs(self.ui@)[t].0 != key@,
            decreases self.ui.len() - i,
        {
            if self.ui[i].0 == k {
                return Some(i);
            }
            i = i + 1;
        }
        None
    }

    /// The version of a package that the user chose to skip.
    pub fn skipped_package(&self, key: &AbsolutePackageKey) -> (r: Option<String>)
        requires
            self.wf(),
        ensures
            match r {
                Some(v) => self@.skipped.contains_key(key@) && self@.skipped[key@] == v@,
                None => !self@.skipped.contains_key(key@),
            },
    {
        match self.skipped_index(key) {
            Some(i) => {
                proof {
                    lemma_assoc_index(skip_pairs(self.skipped_packages@), i as int);
                }
                Some(copy_text(&self.skipped_packages[i].1))
            },
            None => {
                proof {
                    lemma_assoc_absent(skip_pairs(self.skipped_packages@), key@);
                }
                None
            },
        }
    }

    /// Records that `version` of the package is to be skipped.
    pub fn add_skipped_package(&mut self, key: AbsolutePackageKey, version: String) -> (r: Result<(), ConfigError>)
        requires
            old(self).wf(),
        ensures
            final(self).wf(),
            old(self)@.read_only ==> r == Err::<(), ConfigError>(ConfigError::ReadOnly) && final(self)@ == old(self)@,
            !old(self)@.read_only ==> r is Ok && final(self)@ == (ConfigView {
                skipped: old(self)@.skipped.insert(key@, version@),
                ..old(self)@
            }),
    {
        if self.read_only {
            return Err(ConfigError::ReadOnly);
        }
        let ghost s = skip_pairs(self.skipped_packages@);
        match self.skipped_index(&key) {
            Some(i) => {
                let k = self.skipped_packages[i].0.duplicate();
                self.skipped_packages.set(i, (k, version));
                proof {
                    lemma_assoc_update(s, i as int, version@);
                    assert(skip_pairs(self.skipped_packages@) =~= s.update(i as int, (s[i as int].0, version@)));
                }
            },
            None => {
                let ghost kv = key@;
                self.skipped_packages.push((key, version));
                proof {
                    lemma_assoc_push(s, kv, version@);
                    assert(skip_pairs(self.skipped_packages@) =~= s.push((kv, version@)));
                }
            },
        }
        Ok(())
    }

    /// Forgets the skipped version of a package.
    pub fn remove_skipped_package(&mut self, key: &AbsolutePackageKey) -> (r: Result<(), ConfigError>)
        requires
            old(self).wf(),
        ensures
            final(self).wf(),
            old(self)@.read_only ==> r == Err::<(), ConfigError>(ConfigError::ReadOnly) && final(self)@ == old(self)@,
            !old(self)@.read_only ==> r is Ok && final(self)@ == (ConfigView {
                skipped: old(self)@.skipped.remove(key@),
                ..old(self)@
            }),
    {
        if self.read_only {
            return Err(ConfigError::ReadOnly);
        }
        let ghost s = skip_pairs(self.skipped_packages@);
        match self.skipped_index(key) {
            Some(i) => {
                self.skipped_packages.remove(i);
                proof {
                    lemma_assoc_remove(s, i as int);
                    assert(skip_pairs(self.skipped_packages@) =~= s.remove(i as int));
                }
            },
            None => {
                proof {
                    lemma_assoc_absent(s, key@);
                    assert(assoc(s).remove(key@) =~= assoc(s));
                }
            },
        }
        Ok(())
    }

    /// The value of a user-interface setting.
    pub fn ui_setting(&self, key: &str) -> (r: Option<String>)
        requires
            self.wf(),
        ensures
            match r {
                Some(v) => self@.ui.contains_key(key@) && self@.ui[key@] == v@,
                None => !self@.ui.contains_key(key@),
            },
    {
        match self.ui_index(key) {
            Some(i) => {
                proof {
                    lemma_assoc_index(text_pairs(self.ui@), i as int);
                }
                Some(copy_text(&self.ui[i].1))
            },
            None => {
                proof {
                    lemma_assoc_absent(text_pairs(self.ui@), key@);
                }
                None
            },
        }
    }

    /// Sets a user-interface setting, or clears it when `value` is `None`.
    pub fn set_ui_setting(&mut self, key: &str, value: Option<String>) -> (r: Result<(), ConfigError>)
        requires
            old(self).wf(),
        ensures
            final(self).wf(),
            old(self)@.read_only ==> r == Err::<(), ConfigError>(ConfigError::ReadOnly) && final(self)@ == old(self)@,
            !old(self)@.read_only ==> r is Ok && final(self)@ == (ConfigView {
                ui: match value {
                    Some(v) => old(self)@.ui.insert(key@, v@),
                    None => old(self)@.ui.remove(key@),
                },
                ..old(self)@
            }),
    {
        if self.read_only {
            return Err(ConfigError::ReadOnly);
        }
        let ghost s = text_pairs(self.ui@);
        match (self.ui_index(key), value) {
            (Some(i), Some(v)) => {
                let k = copy_text(&self.ui[i].0);
                let ghost vv = v@;
                self.ui.set(i, (k, v));
                proof {
                    lemma_assoc_update(s, i as int, vv);
                    assert(text_pairs(self.ui@) =~= s.update(i as int, (s[i as int].0, vv)));
                }
            },
            (None, Some(v)) => {
                let ghost vv = v@;
                self.ui.push((String::from_str(key), v));
                proof {
                    lemma_assoc_push(s, key@, vv);
                    assert(text_pairs(self.ui@) =~= s.push((key@, vv)));
                }
            },
            (Some(i), None) => {
                self.ui.remove(i);
                proof {
                    lemma_assoc_remove(s, i as int);
                    assert(text_pairs(self.ui@) =~= s.remove(i as int));
                }
            },
            (None, None) => {
                proof {
                    lemma_assoc_absent(s, key@);
                    assert(assoc(s).remove(key@) =~= assoc(s));
                }
            },
        }
        Ok(())
    }

    /// A configuration holding the given document; of pairs with the same
    /// key the later one counts.
    pub fn from_document(
        repos: Vec<RepoRecord>,
        skipped: &Vec<(AbsolutePackageKey, String)>,
        cache_path: String,
        ui: &Vec<(String, String)>,
        read_only: bool,
    ) -> (r: StoreConfig)
        ensures
            r.wf(),
            r@ == (ConfigView {
                repos: repo_views(repos@),
                skipped: assoc(skip_pairs(skipped@)),
                cache_path: cache_path@,
                ui: assoc(text_pairs(ui@)),
                read_only: read_only,
            }),
    {
        let ghost rv = repo_views(repos@);
        let ghost cp = cache_path@;
        let mut c = StoreConfig::new(cache_path, false);
        let _ = c.set_repos(repos);
        let mut i: usize = 0;
        while i < skipped.len()
            invariant
                c.wf(),
                i <= skipped@.len(),
                c@ == (ConfigView {
                    repos: rv,
                    skipped: assoc(skip_pairs(skipped@).take(i as int)),
                    cache_path: cp,
                    ui: Map::<Seq<char>, Seq<char>>::empty(),
                    read_only: false,
                }),
            decreases skipped.len() - i,
        {
            let _ = c.add_skipped_package(skipped[i].0.duplicate(), copy_text(&skipped[i].1));
            proof {
                assert(skip_pairs(skipped@).take(i + 1).drop_last() =~= skip_pairs(skipped@).take(i as int));
            }
            i = i + 1;
        }
        proof {
            assert(skip_pairs(skipped@).take(i as int) =~= skip_pairs(skipped@));
        }
        let mut j: usize = 0;
        while j < ui.len()
            invariant
                c.wf(),
                j <= ui@.len(),
                c@ == (ConfigView {
                    repos: rv,
                    skipped: assoc(skip_pairs(skipped@)),
                    cache_path: cp,
                    ui: assoc(text_pairs(ui@).take(j as int)),
                    read_only: false,
                }),
            decreases ui.len() - j,
        {
            let _ = c.set_ui_setting(ui[j].0.as_str(), Some(copy_text(&ui[j].1)));
            proof {
                assert(text_pairs(ui@).take(j + 1).drop_last() =~= text_pairs(ui@).take(j as int));
            }
            j = j + 1;
        }
        proof {
            assert(text_pairs(ui@).take(j as int) =~= text_pairs(ui@));
        }
        c.read_only = read_only;
        c
    }

    /// The configured repositories, in order.
    pub fn repos(&self) -> (r: Vec<RepoRecord>)
        ensures
            repo_views(r@) == self@.repos,
    {
        let mut r: Vec<RepoRecord> = Vec::new();
        let mut i: usize = 0;
        while i < self.repos.len()
            invariant
                i <= self.repos@.len(),
                repo_views(r@) == repo_views(self.repos@).take(i as int),
            decreases self.repos.len() - i,
        {
            let ghost prev = r@;
            r.push(self.repos[i].duplicate());
            proof {
                assert(repo_views(r@) =~= repo_views(prev).push(repo_views(self.repos@)[i as int]));
                assert(repo_views(self.repos@).take(i + 1) =~= repo_views(self.repos@).take(i as int).push(repo_views(self.repos@)[i as int]));
            }
            i = i + 1;
        }
        proof {
            assert(repo_views(self.repos@).take(i as int) =~= repo_views(self.repos@));
        }
        r
    }

    fn url_index(&self, url: &String) -> (r: Option<usize>)
        ensures
            match r {
                Some(i) => first_url(self@.repos, url@) == Some(i as int),
                None => first_url(self@.repos, url@) is None,
            },
    {
        let mut i: usize = 0;
        while i < self.repos.len()
            invariant
                i <= self.repos@.len(),
                first_url(self@.repos, url@) == first_url_from(self@.repos, url@, i as int),
            decreases self.repos.len() - i,
        {
            if self.repos[i].url == *url {
                return Some(i);
            }
            i = i + 1;
        }
        None
    }

    fn record_index(&self, rec: &RepoRecord) -> (r: Option<usize>)
        ensures
            match r {
                Some(i) => first_record(self@.repos, rec@) == Some(i as int),
                None => first_record(self@.repos, rec@) is None,
            },
    {
        let mut i: usize = 0;
        while i < self.repos.len()
            invariant
                i <= self.repos@.len(),
                first_record(self@.repos, rec@) == first_record_from(self@.repos, rec@, i as int),
            decreases self.repos.len() - i,
        {
            if self.repos[i].url == rec.url && self.repos[i].channel == rec.channel {
                return Some(i);
            }
            i = i + 1;
        }
        None
    }

    /// Adds a repository; a repository with the same URL has its channel
    /// replaced.
    pub fn add_repo(&mut self, repo_record: RepoRecord) -> (r: Result<(), ConfigError>)
        requires
            old(self).wf(),
        ensures
            final(self).wf(),
            old(self)@.read_only ==> r == Err::<(), ConfigError>(ConfigError::ReadOnly) && final(self)@ == old(self)@,
            !old(self)@.read_only ==> r is Ok && final(self)@ == (ConfigView {
                repos: repos_with(old(self)@.repos, repo_record@),
                ..old(self)@
            }),
    {
        if self.read_only {
            return Err(ConfigError::ReadOnly);
        }
        let ghost rv = repo_record@;
        match self.url_index(&repo_record.url) {
            Some(i) => {
                proof {
                    lemma_first_from_in_range(self@.repos, rv.url, 0);
                }
                self.repos.set(i, repo_record);
                proof {
                    assert(repo_views(self.repos@) =~= repo_views(old(self).repos@).update(i as int, rv));
                }
            },
            None => {
                self.repos.push(repo_record);
                proof {
                    assert(repo_views(self.repos@) =~= repo_views(old(self).repos@).push(rv));
                }
            },
        }
        Ok(())
    }

    /// Removes the first repository equal to `repo_record`. When one was
    /// removed, returns the path of its cache directory, which the caller
    /// deletes.
    pub fn remove_repo(&mut self, repo_record: &RepoRecord) -> (r: Result<Option<String>, ConfigError>)
        requires
            old(self).wf(),
        ensures
            final(self).wf(),
            old(self)@.read_only ==> r == Err::<Option<String>, ConfigError>(ConfigError::ReadOnly) && final(self)@ == old(self)@,
            !old(self)@.read_only ==> r is Ok && final(self)@ == (ConfigView {
                repos: repos_without(old(self)@.repos, repo_record@),
                ..old(self)@
            }),
            !old(self)@.read_only ==> match r {
                Ok(Some(path)) => first_record(old(self)@.repos, repo_record@) is Some
                    && path@ == join_path(
                        join_path(old(self)@.cache_path, "repos"@),
                        cache_dir_name(repo_record.url@, repo_record.channel@),
                    ),
                Ok(None) => first_record(old(self)@.repos, repo_record@) is None,
                Err(_) => false,
            },
    {
        if self.read_only {
            return Err(ConfigError::ReadOnly);
        }
        match self.record_index(repo_record) {
            Some(i) => {
                proof {
                    lemma_first_record_in_range(self@.repos, repo_record@, 0);
                }
                self.repos.remove(i);
                proof {
                    assert(repo_views(self.repos@) =~= repo_views(old(self).repos@).remove(i as int));
                }
                let dir = self.repo_cache_path();
                let name = path_hash(repo_record.url.as_str(), repo_record.channel.as_str());
                Ok(Some(join(dir.as_str(), name.as_str())))
            },
            None => Ok(None),
        }
    }

    /// Replaces the repository at position `index`.
    pub fn update_repo(&mut self, index: usize, repo_record: RepoRecord) -> (r: Result<(), ConfigError>)
        requires
            old(self).wf(),
        ensures
            final(self).wf(),
            old(self)@.read_only ==> r == Err::<(), ConfigError>(ConfigError::ReadOnly) && final(self)@ == old(self)@,
            !old(self)@.read_only && index >= old(self)@.repos.len() ==> r == Err::<(), ConfigError>(
                ConfigError::IndexOutOfRange,
            ) && final(self)@ == old(self)@,
            !old(self)@.read_only && index < old(self)@.repos.len() ==> r is Ok && final(self)@ == (ConfigView {
                repos: old(self)@.repos.update(index as int, repo_record@),
                ..old(self)@
            }),
    {
        if self.read_only {
            return Err(ConfigError::ReadOnly);
        }
        if index >= self.repos.len() {
            return Err(ConfigError::IndexOutOfRange);
        }
        let ghost rv = repo_record@;
        self.repos.set(index, repo_record);
        proof {
            assert(repo_views(self.repos@) =~= repo_views(old(self).repos@).update(index as int, rv));
        }
        Ok(())
    }

    /// Replaces the whole repository list.
    pub fn set_repos(&mut self, repos: Vec<RepoRecord>) -> (r: Result<(), ConfigError>)
        requires
            old(self).wf(),
        ensures
            final(self).wf(),
            old(self)@.read_only ==> r == Err::<(), ConfigError>(ConfigError::ReadOnly) && final(self)@ == old(self)@,
            !old(self)@.read_only ==> r is Ok && final(self)@ == (ConfigView { repos: repo_views(repos@), ..old(self)@ }),
    {
        if self.read_only {
            return Err(ConfigError::ReadOnly);
        }
        self.repos = repos;
        Ok(())
    }

    /// The base directory of the caches.
    pub fn cache_base_path(&self) -> (r: String)
        ensures
            r@ == self@.cache_path,
    {
        copy_text(&self.cache_path)
    }

    /// Moves the caches under another base directory.
    pub fn set_cache_base_path(&mut self, cache_path: String) -> (r: Result<(), ConfigError>)
        requires
            old(self).wf(),
        ensures
            final(self).wf(),
            old(self)@.read_only ==> r == Err::<(), ConfigError>(ConfigError::ReadOnly) && final(self)@ == old(self)@,
            !old(self)@.read_only ==> r is Ok && final(self)@ == (ConfigView { cache_path: cache_path@, ..old(self)@ }),
    {
        if self.read_only {
            return Err(ConfigError::ReadOnly);
        }
        self.cache_path = cache_path;
        Ok(())
    }

    /// Where downloaded installers are kept: `<cache>/packages`.
    pub fn package_cache_path(&self) -> (r: String)
        ensures
            r@ == join_path(self@.cache_path, "packages"@),
    {
        join(self.cache_path.as_str(), "packages")
    }

    /// Where repository indexes are kept: `<cache>/repos`.
    pub fn repo_cache_path(&self) -> (r: String)
        ensures
            r@ == join_path(self@.cache_path, "repos"@),
    {
        join(self.cache_path.as_str(), "repos")
    }

    /// Whether changes are refused.
    pub fn is_read_only(&self) -> (r: bool)
        ensures
            r == self@.read_only,
    {
        self.read_only
    }

    /// The skipped versions as pairs, each key once.
    pub fn skipped_packages(&self) -> (r: Vec<(AbsolutePackageKey, String)>)
        requires
            self.wf(),
        ensures
            unique_keys(skip_pairs(r@)),
            assoc(skip_pairs(r@)) == self@.skipped,
    {
        let mut r: Vec<(AbsolutePackageKey, String)> = Vec::new();
        let mut i: usize = 0;
        while i < self.skipped_packages.len()
            invariant
                self.wf(),
                i <= self.skipped_packages@.len(),
                skip_pairs(r@) == skip_pairs(self.skipped_packages@).take(i as int),
            decreases self.skipped_packages.len() - i,
        {
            let p = &self.skipped_packages[i];
            let ghost prev = r@;
            r.push((p.0.duplicate(), copy_text(&p.1)));
            proof {
                assert(skip_pairs(r@) =~= skip_pairs(prev).push(skip_pairs(self.skipped_packages@)[i as int]));
                assert(skip_pairs(self.skipped_packages@).take(i + 1) =~= skip_pairs(self.skipped_packages@).take(i as int).push(skip_pairs(self.skipped_packages@)[i as int]));
            }
            i = i + 1;
        }
        proof {
            assert(skip_pairs(self.skipped_packages@).take(i as int) =~= skip_pairs(self.skipped_packages@));
        }
        r
    }

    /// The user-interface settings as pairs, each key once.
    pub fn ui_settings(&self) -> (r: Vec<(String, String)>)
        requires
            self.wf(),
        ensures
            unique_keys(text_pairs(r@)),
            assoc(text_pairs(r@)) == self@.ui,
    {
        let mut r: Vec<(String, String)> = Vec::new();
        let mut i: usize = 0;
        while i < self.ui.len()
            invariant
                self.wf(),
                i <= self.ui@.len(),
                text_pairs(r@) == text_pairs(self.ui@).take(i as int),
            decreases self.ui.len() - i,
        {
            let p = &self.ui[i];
            let ghost prev = r@;
            r.push((copy_text(&p.0), copy_text(&p.1)));
            proof {
                assert(text_pairs(r@) =~= text_pairs(prev).push(text_pairs(self.ui@)[i as int]));
                assert(text_pairs(self.ui@).take(i + 1) =~= text_pairs(self.ui@).take(i as int).push(text_pairs(self.ui@)[i as int]));
            }
            i = i + 1;
        }
        proof {
            assert(text_pairs(self.ui@).take(i as int) =~= text_pairs(self.ui@));
        }
        r
    }
}

proof fn lemma_first_from_in_range(rs: Seq<RepoView>, url: Seq<char>, i: int)
    ensures
        first_url_from(rs, url, i) matches Some(j) ==> 0 <= j < rs.len(),
    decreases rs.len() - i,
{
    if 0 <= i < rs.len() && rs[i].url != url {
        lemma_first_from_in_range(rs, url, i + 1);
    }
}

proof fn lemma_first_record_in_range(rs: Seq<RepoView>, rec: RepoView, i: int)
    ensures
        first_record_from(rs, rec, i) matches Some(j) ==> 0 <= j < rs.len(),
    decreases rs.len() - i,
{
    if 0 <= i < rs.len() && rs[i] != rec {
        lemma_first_record_in_range(rs, rec, i + 1);
    }
}

/// The skipped version recorded for `key`, as `skipped_package` returns it.
pub open spec fn skipped_of(m: Map<KeyView, Seq<char>>, key: KeyView) -> Option<Seq<char>> {
    if m.contains_key(key) {
        Some(m[key])
    } else {
        None
    }
}

/// Once version `v` of a package is marked skipped and `v` is what is
/// installed, its status is `Skipped`; once the mark is removed again, the
/// package declaring `v` is up to date.
pub proof fn lemma_skip_semantics(skipped: Map<KeyView, Seq<char>>, key: KeyView, v: Seq<char>, backend: InstallerKind)
    requires
        semver_of(v) is Some,
    ensures
        status_spec(Some(backend), backend, skipped_of(skipped.insert(key, v), key), Some(v), v)
            == Ok::<PackageStatus, PackageStatusError>(PackageStatus::Skipped),
        status_spec(Some(backend), backend, skipped_of(skipped.insert(key, v).remove(key), key), Some(v), v)
            == Ok::<PackageStatus, PackageStatusError>(PackageStatus::UpToDate),
{
    lemma_version_order_refl(semver_of(v)->0);
}

/// The document that `repos`, `skipped_packages`, `cache_base_path` and
/// `ui_settings` export is the one `from_document` rebuilds: writing the
/// configuration out and reading it back gives the same configuration.
pub proof fn lemma_document_round_trip(
    c: ConfigView,
    repos: Seq<RepoView>,
    skipped: Seq<(KeyView, Seq<char>)>,
    cache_path: Seq<char>,
    ui: Seq<(Seq<char>, Seq<char>)>,
)
    requires
        repos == c.repos,
        assoc(skipped) == c.skipped,
        cache_path == c.cache_path,
        assoc(ui) == c.ui,
    ensures
        (ConfigView {
            repos: repos,
            skipped: assoc(skipped),
            cache_path: cache_path,
            ui: assoc(ui),
            read_only: c.read_only,
        }) == c,
{
}

} // verus!
