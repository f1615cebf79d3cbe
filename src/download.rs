use vstd::prelude::*;
use vstd::string::*;
use crate::cache::{join, join_path};
use crate::key::{parsed_url_path, url_path_of};

verus! {

/// The `/`-free tail of a path.
pub open spec fn trailing_segment(p: Seq<char>) -> Seq<char>
    decreases p.len(),
{
    if p.len() == 0 || p.last() == '/' {
        Seq::empty()
    } else {
        trailing_segment(p.drop_last()).push(p.last())
    }
}

/// The last non-empty `/`-separated segment of a path (empty when there
/// is none).
pub open spec fn last_segment(p: Seq<char>) -> Seq<char>
    decreases p.len(),
{
    if p.len() > 0 && p.last() == '/' {
        last_segment(p.drop_last())
    } else {
        trailing_segment(p)
    }
}

/// The file name a download of `url` is stored under: the last non-empty
/// segment of the URL's path.
pub open spec fn download_name(url: Seq<char>) -> Option<Seq<char>> {
    match url_path_of(url) {
        Some(p) => if last_segment(p).len() > 0 {
            Some(last_segment(p))
        } else {
            None
        },
        None => None,
    }
}

/// The last non-empty segment of a path.
pub fn path_last_segment(p: &str) -> (r: String)
    ensures
        r@ == last_segment(p@),
{
    let n = p.unicode_len();
    let mut end: usize = n;
    assert(p@.take(n as int) =~= p@);
    while end > 0 && p.get_char(end - 1) == '/'
        invariant
            n == p@.len(),
            end <= n,
            last_segment(p@) == last_segment(p@.take(end as int)),
        decreases end,
    {
        assert(p@.take(end as int).drop_last() =~= p@.take(end - 1));
        end = end - 1;
    }
    let mut start: usize = end;
    while start > 0 && p.get_char(start - 1) != '/'
        invariant
            n == p@.len(),
            start <= end <= n,
            trailing_segment(p@.take(end as int)) == trailing_segment(p@.take(start as int)) + p@.subrange(start as int, end as int),
        decreases start,
    {
        assert(p@.take(start as int).drop_last() =~= p@.take(start - 1));
        assert(p@.subrange(start - 1, end as int) =~= seq![p@[start - 1]] + p@.subrange(start as int, end as int));
        assert(trailing_segment(p@.take(start as int)) == trailing_segment(p@.take(start - 1)).push(p@[start - 1]));
        assert(trailing_segment(p@.take(start - 1)).push(p@[start - 1]) + p@.subrange(start as int, end as int)
            =~= trailing_segment(p@.take(start - 1)) + p@.subrange(start - 1, end as int));
        start = start - 1;
    }
    proof {
        assert(trailing_segment(p@.take(start as int)) =~= Seq::empty());
        assert(trailing_segment(p@.take(start as int)) + p@.subrange(start as int, end as int) =~= p@.subrange(start as int, end as int));
        if end > 0 {
            assert(p@.take(end as int).last() != '/');
        }
    }
    String::from_str(p.substring_char(start, end))
}

/// The file name under which a download of `url` is stored; `None` when
/// the URL does not parse or its path has no non-empty segment.
pub fn download_file_name(url: &str) -> (r: Option<String>)
    ensures
        match r {
            Some(name) => download_name(url@) == Some(name@),
            None => download_name(url@) is None,
        },
{
    let path = parsed_url_path(url)?;
    let name = path_last_segment(path.as_str());
    if name.unicode_len() == 0 {
        None
    } else {
        Some(name)
    }
}

/// Where a download of `url` goes inside `dir`.
pub fn download_target(dir: &str, url: &str) -> (r: Option<String>)
    ensures
        match r {
            Some(path) => download_name(url@) matches Some(name) && path@ == join_path(dir@, name),
            None => download_name(url@) is None,
        },
{
    let name = download_file_name(url)?;
    Some(join(dir, name.as_str()))
}

/// Whether the artifact must be fetched: not when a file of the expected
/// size is already there.
pub fn needs_download(existing_size: Option<u64>, expected_size: u64) -> (r: bool)
    ensures
        r == !(existing_size == Some(expected_size)),
{
    match existing_size {
        Some(s) => s != expected_size,
        None => true,
    }
}

/// The total a progress report carries: an unknown total is reported as
/// zero.
pub fn progress_total(total: Option<u64>) -> (r: u64)
    ensures
        r == match total {
            Some(t) => t,
            None => 0,
        },
{
    match total {
        Some(t) => t,
        None => 0,
    }
}

} // verus!
