use vstd::prelude::*;
use crate::text::{chars_of, concat, string_from_range};
use crate::version::{is_newer, is_newer_version, parse_u64, parse_u64_range};

verus! {

/// Where the latest release redirects to.
pub const LATEST_RELEASE_URL: &'static str = "https://github.com/getsugg/sugg/releases/latest";

/// Where the assets of the latest release are downloaded from.
pub const LATEST_DOWNLOAD_BASE: &'static str = "https://github.com/getsugg/sugg/releases/latest/download/";

/// The last `/`-separated segment of a URL path.
pub open spec fn last_segment(path: Seq<char>) -> Seq<char>
    decreases path.len(),
{
    if path.len() == 0 {
        path
    } else if path.last() == '/' {
        Seq::<char>::empty()
    } else {
        last_segment(path.drop_last()).push(path.last())
    }
}

/// The version that the latest-release redirect names: its last path segment without the
/// leading `v`; none where the segment does not start with `v`.
pub open spec fn tag_version(path: Seq<char>) -> Option<Seq<char>> {
    let s = last_segment(path);
    if s.len() > 0 && s[0] == 'v' {
        Some(s.drop_first())
    } else {
        None
    }
}

/// The version that the latest-release redirect (its URL path) names.
pub fn latest_tag_from_path(path: &str) -> (r: Option<String>)
    ensures
        match r {
            Some(t) => tag_version(path@) == Some(t@),
            None => tag_version(path@) is None,
        },
{
    let v = chars_of(path);
    let mut k = v.len();
    assert(v@.take(k as int) =~= v@ && v@.skip(k as int) =~= Seq::<char>::empty());
    assert(last_segment(v@) == last_segment(v@.take(k as int)) + v@.skip(k as int));
    while k > 0 && v[k - 1] != '/'
        invariant
            v@ == path@,
            k <= v.len(),
            forall|j: int| k <= j < v.len() ==> #[trigger] v@[j] != '/',
            last_segment(v@) == last_segment(v@.take(k as int)) + v@.skip(k as int),
        decreases k,
    {
        let ghost t = v@.take(k as int);
        assert(t.drop_last() =~= v@.take(k - 1));
        assert(v@.skip(k - 1) =~= seq![v@[k - 1]] + v@.skip(k as int));
        assert(last_segment(t) == last_segment(v@.take(k - 1)).push(v@[k - 1]));
        assert(last_segment(v@.take(k - 1)).push(v@[k - 1]) + v@.skip(k as int) =~= last_segment(v@.take(k - 1)) + v@.skip(k - 1));
        k = k - 1;
    }
    proof {
        assert(v@.take(v@.len() as int) =~= v@);
        if k > 0 {
            assert(v@.take(k as int).last() == '/');
        } else {
            assert(v@.take(0) =~= Seq::<char>::empty());
        }
        assert(last_segment(v@.take(k as int)) =~= Seq::<char>::empty());
        assert(last_segment(v@) =~= v@.skip(k as int));
    }
    if k < v.len() && v[k] == 'v' {
        let t = string_from_range(&v, k + 1, v.len());
        assert(v@.subrange(k + 1, v@.len() as int) =~= v@.skip(k as int).drop_first());
        Some(t)
    } else {
        None
    }
}

/// Whether a release of version `latest` is an upgrade from version `current`.
pub fn needs_upgrade(latest: &str, current: &str) -> (r: bool)
    ensures
        r == is_newer(latest@, current@),
{
    is_newer_version(latest, current)
}

/// The platforms that releases are built for.
#[derive(Debug, Clone, Copy, PartialEq, Eq, Structural)]
pub enum Platform {
    Windows,
    MacArm,
    MacIntel,
    Linux,
}

/// The release asset for a platform, and whether it is a zip archive (else a gzipped tar).
pub open spec fn asset_for(p: Platform) -> (Seq<char>, bool) {
    match p {
        Platform::Windows => ("sugg-x86_64-pc-windows-msvc.zip"@, true),
        Platform::MacArm => ("sugg-aarch64-apple-darwin.tar.gz"@, false),
        Platform::MacIntel => ("sugg-x86_64-apple-darwin.tar.gz"@, false),
        Platform::Linux => ("sugg-x86_64-unknown-linux-musl.tar.gz"@, false),
    }
}

/// The release asset for a platform, and whether it is a zip archive.
pub fn release_asset(p: Platform) -> (r: (&'static str, bool))
    ensures
        (r.0@, r.1) == asset_for(p),
{
    match p {
        Platform::Windows => ("sugg-x86_64-pc-windows-msvc.zip", true),
        Platform::MacArm => ("sugg-aarch64-apple-darwin.tar.gz", false),
        Platform::MacIntel => ("sugg-x86_64-apple-darwin.tar.gz", false),
        Platform::Linux => ("sugg-x86_64-unknown-linux-musl.tar.gz", false),
    }
}

/// Where the release asset for a platform is downloaded from.
pub fn asset_url(p: Platform) -> (r: String)
    ensures
        r@ == LATEST_DOWNLOAD_BASE@ + asset_for(p).0,
{
    let (name, _) = release_asset(p);
    concat(LATEST_DOWNLOAD_BASE, name)
}

/// The size announced by a `content-length` header: its number, or 0 where there is none.
pub fn content_length(header: Option<&str>) -> (r: u64)
    ensures
        r == (match header {
            Some(h) => match parse_u64(h@) {
                Some(n) => n,
                None => 0,
            },
            None => 0,
        }),
{
    match header {
        Some(h) => {
            let v = chars_of(h);
            assert(v@.subrange(0, v@.len() as int) =~= v@);
            match parse_u64_range(&v, 0, v.len()) {
                Some(n) => n,
                None => 0,
            }
        },
        None => 0,
    }
}

/// The file names of the two binaries (`sugg`, `sugg-engine`), with `.exe` on Windows.
pub fn binary_names(windows: bool) -> (r: (&'static str, &'static str))
    ensures
        windows ==> r.0@ == "sugg.exe"@ && r.1@ == "sugg-engine.exe"@,
        !windows ==> r.0@ == "sugg"@ && r.1@ == "sugg-engine"@,
{
    if windows {
        ("sugg.exe", "sugg-engine.exe")
    } else {
        ("sugg", "sugg-engine")
    }
}

} // verus!
