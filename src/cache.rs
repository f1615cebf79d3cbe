use vstd::prelude::*;
use vstd::string::*;
use crypto::digest::Digest;

verus! {

/// The SHA-256 digest of a text's UTF-8 bytes, in lowercase hexadecimal.
pub uninterp spec fn sha256_hex(s: Seq<char>) -> Seq<char>;

/// Relies on crypto::sha2::Sha256 (`input_str`, then `result_str`): the
/// lowercase hex digest of the text; it depends on the text alone.
#[verifier::external_body]
fn digest_hex(s: &str) -> (r: String)
    ensures
        r@ == sha256_hex(s@),
{
    let mut hasher = crypto::sha2::Sha256::new();
    hasher.input_str(s);
    hasher.result_str()
}

/// The text whose digest names a repository's cache directory.
pub open spec fn cache_key_text(url: Seq<char>, channel: Seq<char>) -> Seq<char> {
    url + seq!['#'] + channel
}

/// The name of the cache directory of the repository at `url` followed on
/// `channel`.
pub open spec fn cache_dir_name(url: Seq<char>, channel: Seq<char>) -> Seq<char> {
    sha256_hex(cache_key_text(url, channel))
}

/// The cache directory name of a repository: the digest of `url#channel`.
pub fn path_hash(url: &str, channel: &str) -> (r: String)
    ensures
        r@ == cache_dir_name(url@, channel@),
{
    let mut text = String::from_str(url);
    text.append("#");
    text.append(channel);
    proof {
        reveal_strlit("#");
        assert(text@ =~= cache_key_text(url@, channel@));
    }
    digest_hex(text.as_str())
}

/// The same repository and channel always share a cache directory, and
/// a different channel digests a different text.
pub proof fn lemma_cache_dir_determinism(url: Seq<char>, c1: Seq<char>, c2: Seq<char>)
    ensures
        c1 == c2 ==> cache_dir_name(url, c1) == cache_dir_name(url, c2),
        c1 != c2 ==> cache_key_text(url, c1) != cache_key_text(url, c2),
{
    if c1 != c2 {
        let t1 = cache_key_text(url, c1);
        let t2 = cache_key_text(url, c2);
        assert(t1.subrange(url.len() as int + 1, t1.len() as int) =~= c1);
        assert(t2.subrange(url.len() as int + 1, t2.len() as int) =~= c2);
    }
}

/// Joins a directory and a name with one `/`.
pub open spec fn join_path(dir: Seq<char>, name: Seq<char>) -> Seq<char> {
    if dir.len() == 0 || dir.last() == '/' {
        dir + name
    } else {
        dir + seq!['/'] + name
    }
}

/// Joins a directory and a name with one `/`.
pub fn join(dir: &str, name: &str) -> (r: String)
    ensures
        r@ == join_path(dir@, name@),
{
    let mut r = String::from_str(dir);
    let n = dir.unicode_len();
    if n > 0 && dir.get_char(n - 1) != '/' {
        r.append("/");
    }
    r.append(name);
    proof {
        reveal_strlit("/");
        assert(r@ =~= join_path(dir@, name@));
    }
    r
}

} // verus!
