use vstd::prelude::*;
use crate::text::{chars_of, push_str, replace_char, string_from_chars};

verus! {

/// The path written with forward slashes only.
pub fn path_to_slash(path: &str) -> (r: String)
    ensures
        r@ == replace_char(path@, '\\', '/'),
{
    let v = chars_of(path);
    let mut out: Vec<char> = Vec::new();
    for i in 0..v.len()
        invariant
            v@ == path@,
            out@ == replace_char(v@.take(i as int), '\\', '/'),
    {
        let c = v[i];
        out.push(if c == '\\' { '/' } else { c });
        assert(v@.take(i + 1) == v@.take(i as int).push(c));
    }
    assert(v@.take(v.len() as int) == v@);
    string_from_chars(&out)
}

/// `base` joined with the relative component `name`, with a `/` between them unless `base`
/// is empty or already ends with one.
pub open spec fn join_path(base: Seq<char>, name: Seq<char>) -> Seq<char> {
    if base.len() == 0 {
        name
    } else if base.last() == '/' {
        base + name
    } else {
        base + seq!['/'] + name
    }
}

/// Joins a relative component onto a directory path.
pub fn join(base: &str, name: &str) -> (r: String)
    ensures
        r@ == join_path(base@, name@),
{
    let b = chars_of(base);
    let mut r = string_from_chars(&b);
    if b.len() > 0 && b[b.len() - 1] != '/' {
        push_str(&mut r, "/");
        proof {
            reveal_strlit("/");
        }
    }
    push_str(&mut r, name);
    r
}

/// The default directory of completion scripts under the sugg root directory.
pub fn default_completions_dir(sugg_root: &str) -> (r: String)
    ensures
        r@ == join_path(sugg_root@, "completions"@),
{
    join(sugg_root, "completions")
}

/// The completion cache file in a directory.
pub fn cache_file_in(dir: &str) -> (r: String)
    ensures
        r@ == join_path(dir@, ".completion_cache.bin"@),
{
    join(dir, ".completion_cache.bin")
}

/// The engine binary under the sugg root directory, with `.exe` on Windows.
pub fn engine_file(sugg_root: &str, windows: bool) -> (r: String)
    ensures
        r@ == join_path(sugg_root@, if windows { "sugg-engine.exe"@ } else { "sugg-engine"@ }),
{
    join(sugg_root, if windows { "sugg-engine.exe" } else { "sugg-engine" })
}

/// The type declarations of the dev environment, headed by the version that wrote them.
pub fn versioned_declarations(version: &str, content: &str) -> (r: String)
    ensures
        r@ == "// Version: "@ + version@ + "\n"@ + content@,
{
    let mut s = String::from_str("// Version: ");
    push_str(&mut s, version);
    push_str(&mut s, "\n");
    push_str(&mut s, content);
    s
}

} // verus!
