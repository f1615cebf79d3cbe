use vstd::prelude::*;
use vstd::string::*;
use crate::cache::{join, join_path};

verus! {

/// Why a repository could not be loaded.
#[derive(Clone, Copy, Debug, PartialEq, Eq, Structural)]
pub enum RepoError {
    /// Neither the network nor the cache gave the file.
    Network,
    /// The index file is malformed.
    Parse,
}

/// Where a repository's root index lives.
pub fn root_index_url(base: &str) -> (r: String)
    ensures
        r@ == join_path(base@, "index.json"@),
{
    join(base, "index.json")
}

/// The index file name of a package on a channel: the default channel's
/// is `index.json`, any other's `index.<channel>.json`.
pub open spec fn index_file_name(channel: Seq<char>, default_channel: Seq<char>) -> Seq<char> {
    if channel == default_channel {
        "index.json"@
    } else {
        "index."@ + channel + ".json"@
    }
}

/// Where a package's index lives: `<base>packages/<id>/<index file>`.
pub fn package_index_url(base: &str, id: &str, channel: &str, default_channel: &str) -> (r: String)
    ensures
        r@ == join_path(join_path(join_path(base@, "packages"@), id@), index_file_name(channel@, default_channel@)),
{
    let packages = join(base, "packages");
    let dir = join(packages.as_str(), id);
    let name = if String::from_str(channel) == String::from_str(default_channel) {
        String::from_str("index.json")
    } else {
        let mut n = String::from_str("index.");
        n.append(channel);
        n.append(".json");
        proof {
            reveal_strlit("index.");
            reveal_strlit(".json");
        }
        n
    };
    join(dir.as_str(), name.as_str())
}

/// Which copy of an index file to use: the fetched one when the fetch
/// succeeded (and it is then written to the cache), else the cached one;
/// loading fails only when both are missing. The flag says whether the
/// cache must be refreshed.
pub fn pick_index(fetched: Option<String>, cached: Option<String>) -> (r: Result<(String, bool), RepoError>)
    ensures
        match fetched {
            Some(f) => r matches Ok((text, store)) && text@ == f@ && store,
            None => match cached {
                Some(c) => r matches Ok((text, store)) && text@ == c@ && !store,
                None => r == Err::<(String, bool), RepoError>(RepoError::Network),
            },
        },
{
    match fetched {
        Some(f) => Ok((f, true)),
        None => match cached {
            Some(c) => Ok((c, false)),
            None => Err(RepoError::Network),
        },
    }
}

} // verus!
