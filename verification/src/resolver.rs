use vstd::prelude::*;

verus! {

/// Where one blocklist source lives: a local file, or a remote resource
/// reached by a path with an optional query string.
pub enum Locator {
    File { path: String },
    Remote { path: String, query: Option<String> },
}

/// The dashed form of a remote path: every `/` becomes `-`.
pub open spec fn dash_slashes(path: Seq<char>) -> Seq<char> {
    Seq::new(path.len(), |i: int| if path[i] == '/' { '-' } else { path[i] })
}

/// The cache file name of a remote source: the dashed path, one leading
/// dash stripped if the dashed path starts with one, and, when a query
/// string exists, `--` and the raw query string appended.
pub open spec fn spec_cache_file_name(path: Seq<char>, query: Option<Seq<char>>) -> Seq<char> {
    let dashed = dash_slashes(path);
    let stripped = if dashed.len() > 0 && dashed[0] == '-' {
        dashed.drop_first()
    } else {
        dashed
    };
    match query {
        Some(q) => stripped + seq!['-', '-'] + q,
        None => stripped,
    }
}

/// Derive the name of the cache file a remote source maps to.
pub fn cache_file_name(path: &str, query: Option<&str>) -> (r: String)
    ensures
        r@ == spec_cache_file_name(
            path@,
            match query {
                Some(q) => Some(q@),
                None => None,
            },
        ),
{
    let n = path.unicode_len();
    let mut out = String::new();
    let mut start: usize = 0;
    let mut i: usize = 0;
    proof {
        assert(out@ =~= dash_slashes(path@.subrange(0, 0)));
    }
    while i < n
        invariant
            start <= i <= n,
            n == path@.len(),
            out@ == dash_slashes(path@.subrange(0, start as int)),
            forall|k: int| start <= k < i ==> path@[k] != '/',
        decreases n - i,
    {
        if path.get_char(i) == '/' {
            out.append(path.substring_char(start, i));
            out.append("-");
            proof {
                reveal_strlit("-");
                assert(out@ =~= dash_slashes(path@.subrange(0, i + 1)));
            }
            start = i + 1;
        }
        i += 1;
    }
    out.append(path.substring_char(start, n));
    proof {
        assert(path@.subrange(0, n as int) =~= path@);
        assert(out@ =~= dash_slashes(path@));
    }
    let dashed_len = out.as_str().unicode_len();
    let stripped = if dashed_len > 0 && out.as_str().get_char(0) == '-' {
        let s = out.as_str().substring_char(1, dashed_len).to_owned();
        proof {
            assert(s@ =~= dash_slashes(path@).drop_first());
        }
        s
    } else {
        out
    };
    match query {
        Some(q) => {
            let mut r = stripped;
            r.append("--");
            r.append(q);
            proof {
                reveal_strlit("--");
                assert(r@ =~= spec_cache_file_name(path@, Some(q@)));
            }
            r
        },
        None => stripped,
    }
}

/// The first step resolving one source takes.
pub enum FetchPlan {
    /// A local file is read directly; no fallback exists for it.
    ReadLocalFile,
    /// The cache file is read; no network request is made.
    ReadCache,
    /// The source is fetched over the network; on success the body is
    /// persisted to the cache file, and a persist failure leaves the
    /// fetched body valid. On failure the cache file, if it exists by
    /// then, is the fallback.
    Fetch,
}

/// Decide how resolving one source starts. The cache file is read in
/// place of the network exactly when the caller asked to restore from
/// cache and the cache file exists, so such a run makes no request for
/// this source.
pub fn plan_source(loc: &Locator, restore_from_cache: bool, cache_exists: bool) -> (p: FetchPlan)
    ensures
        (p is ReadLocalFile) <==> (loc is File),
        (p is ReadCache) <==> (loc is Remote && restore_from_cache && cache_exists),
        (p is Fetch) <==> (loc is Remote && !(restore_from_cache && cache_exists)),
{
    match loc {
        Locator::File { .. } => FetchPlan::ReadLocalFile,
        Locator::Remote { .. } => {
            if restore_from_cache && cache_exists {
                FetchPlan::ReadCache
            } else {
                FetchPlan::Fetch
            }
        },
    }
}

/// After a failed network fetch, fall back to the cache file exactly when
/// one exists; otherwise the source is skipped. A failed fetch never
/// touches the cache file itself.
pub fn plan_after_fetch_failure(cache_exists: bool) -> (fall_back_to_cache: bool)
    ensures
        fall_back_to_cache == cache_exists,
{
    cache_exists
}

} // verus!
