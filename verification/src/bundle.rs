use vstd::prelude::*;
use crate::hashing::{default_hash, hash_key, hash_source, hash_strings, source_hash, strings_hash};
use crate::i18n::{json_quote, KeyTexts, LangTexts};
use crate::text::{chars_of, concat, push_str, str_eq, string_from_range, strings_view};

verus! {

/// The id of the entry module of a dynamic bundle.
pub const VIRTUAL_DYNAMIC_ENTRY: &'static str = "virtual:dynamic_entry";

/// The id of the environment module.
pub const VIRTUAL_ENV: &'static str = "virtual:env";

/// The bare import name that stands for the environment module.
pub const VIRTUAL_SUGG: &'static str = "sugg";

/// The prefix of the i18n modules.
pub const VIRTUAL_I18N: &'static str = "virtual:i18n";

/// The id of the entry module of a static bundle.
pub const VIRTUAL_STATIC_ENTRY: &'static str = "virtual:static_entry";

/// The code of the `virtual:env` module for a language: the language as a JSON string
/// constant, then the environment's own code.
pub open spec fn env_code(lang: Seq<char>, env_js: Seq<char>) -> Seq<char> {
    "const __LANG = "@ + json_quote(lang) + ";\n"@ + env_js
}

/// The code of the `virtual:env` module for a language, given the environment's code.
pub fn generate_env_code(lang: &str, env_js: &str) -> (r: String)
    ensures
        r@ == env_code(lang@, env_js@),
{
    let mut s = String::from_str("const __LANG = ");
    let q = crate::i18n::json_string(lang);
    push_str(&mut s, q.as_str());
    push_str(&mut s, ";\n");
    push_str(&mut s, env_js);
    s
}

/// A file name split as `Path::file_stem` and `Path::extension` split it: at the last `.`,
/// unless the name is `..` or its only `.` is its first character.
pub open spec fn split_extension(name: Seq<char>) -> (Seq<char>, Option<Seq<char>>) {
    if name == ".."@ {
        (name, None)
    } else {
        match crate::text::last_index(name, '.') {
            Some(k) => if k == 0 {
                (name, None)
            } else {
                (name.take(k), Some(name.skip(k + 1)))
            },
            None => (name, None),
        }
    }
}

/// Whether a file is a completion script: a `.js` or `.ts` file whose name does not start
/// with `_` and does not end with `.d.ts`.
pub open spec fn is_script_file(name: Seq<char>) -> bool {
    let ext = split_extension(name).1;
    &&& (ext == Some("js"@) || ext == Some("ts"@))
    &&& !(name.len() > 0 && name[0] == '_')
    &&& !crate::deploy::ends_with(name, ".d.ts"@)
}

/// The name a script is known by: its file stem, or for an `index` file the name of its
/// directory.
pub open spec fn script_stem(name: Seq<char>, dir_name: Option<Seq<char>>) -> Seq<char> {
    let stem = split_extension(name).0;
    if stem == "index"@ {
        match dir_name {
            Some(d) => d,
            None => stem,
        }
    } else {
        stem
    }
}

fn split_extension_exec(name: &str) -> (r: (String, Option<String>))
    ensures
        (r.0@, match r.1 { Some(e) => Some(e@), None => None::<Seq<char>> }) == split_extension(name@),
{
    let v = chars_of(name);
    proof {
        reveal_strlit("..");
    }
    if str_eq(name, "..") {
        return (String::from_str(name), None);
    }
    match crate::text::find_last_char(&v, '.') {
        Some(k) => {
            if k == 0 {
                (String::from_str(name), None)
            } else {
                let stem = string_from_range(&v, 0, k);
                let ext = string_from_range(&v, k + 1, v.len());
                assert(v@.subrange(0, k as int) =~= v@.take(k as int));
                assert(v@.subrange(k + 1, v@.len() as int) =~= v@.skip(k + 1));
                (stem, Some(ext))
            }
        },
        None => (String::from_str(name), None),
    }
}

/// Whether a file is a completion script.
pub fn is_script_file_exec(name: &str) -> (r: bool)
    ensures
        r == is_script_file(name@),
{
    let (_, ext) = split_extension_exec(name);
    let ext_ok = match &ext {
        Some(e) => str_eq(e.as_str(), "js") || str_eq(e.as_str(), "ts"),
        None => false,
    };
    let underscore = crate::text::str_starts_with_char(name, '_');
    let dts = crate::deploy::str_ends_with(name, ".d.ts");
    proof {
        reveal_strlit("js");
        reveal_strlit("ts");
    }
    ext_ok && !underscore && !dts
}

/// Which file names are completion scripts: a declaration file (`*.d.ts`) or a name that
/// starts with `_` never is; a name longer than its extension that ends in `.ts` or `.js`
/// is, unless it is one of those.
pub proof fn lemma_script_file_names(name: Seq<char>)
    ensures
        (name.len() >= 5 && name.skip(name.len() - 5) == ".d.ts"@) ==> !is_script_file(name),
        (name.len() > 0 && name[0] == '_') ==> !is_script_file(name),
        (name.len() > 3 && (name.skip(name.len() - 3) == ".ts"@ || name.skip(name.len() - 3) == ".js"@) && name[0] != '_'
            && !(name.len() >= 5 && name.skip(name.len() - 5) == ".d.ts"@)) ==> is_script_file(name),
{
    reveal_strlit(".d.ts");
    reveal_strlit(".ts");
    reveal_strlit(".js");
    reveal_strlit("ts");
    reveal_strlit("js");
    reveal_strlit("..");
    let n = name.len();
    if n > 3 && (name.skip(n - 3) == ".ts"@ || name.skip(n - 3) == ".js"@) {
        assert(name[n - 3] == name.skip(n - 3)[0]);
        assert(name[n - 2] == name.skip(n - 3)[1]);
        assert(name[n - 1] == name.skip(n - 3)[2]);
        assert(name[n - 3] == '.' && name[n - 2] != '.' && name[n - 1] != '.');
        assert(name.drop_last().last() == name[n - 2]);
        assert(name.drop_last().drop_last().last() == name[n - 3]);
        assert(name.drop_last().drop_last().len() == n - 2);
        assert(crate::text::last_index(name.drop_last().drop_last(), '.') == Some(n - 3));
        assert(crate::text::last_index(name.drop_last(), '.') == Some(n - 3));
        assert(crate::text::last_index(name, '.') == Some(n - 3));
        assert(name != ".."@);
        assert(name.skip(n - 2) =~= name.skip(n - 3).skip(1));
        assert(split_extension(name).1 == Some(name.skip(n - 2)));
        if name.skip(n - 3) == ".ts"@ {
            assert(name.skip(n - 2) =~= "ts"@);
        } else {
            assert(name.skip(n - 2) =~= "js"@);
        }
    }
}

/// A declaration file (`*.d.ts`) or a file whose name starts with `_` is never chosen for
/// bundling.
pub proof fn lemma_declaration_files_not_selected(files: Seq<ScriptFile>, root: Option<Seq<char>>)
    ensures
        forall|j: int| 0 <= j < select_scripts(files, root).0.len() ==> {
            let name = #[trigger] files[select_scripts(files, root).0[j]].name@;
            &&& !(name.len() >= 5 && name.skip(name.len() - 5) == ".d.ts"@)
            &&& !(name.len() > 0 && name[0] == '_')
        },
{
    lemma_selected_stems_distinct(files, root);
    let k = select_scripts(files, root).0;
    assert forall|j: int| 0 <= j < k.len() implies {
        let name = #[trigger] files[k[j]].name@;
        &&& !(name.len() >= 5 && name.skip(name.len() - 5) == ".d.ts"@)
        &&& !(name.len() > 0 && name[0] == '_')
    } by {
        lemma_script_file_names(files[k[j]].name@);
    }
}

/// Whether a change to a file calls for a rebuild while watching: a script, module or
/// translation file (extension `ts`, `js` or `json`).
pub open spec fn is_watched(name: Seq<char>) -> bool {
    let ext = split_extension(name).1;
    ext == Some("ts"@) || ext == Some("js"@) || ext == Some("json"@)
}

/// Whether a change to the file of this name calls for a rebuild while watching.
pub fn is_watched_file(name: &str) -> (r: bool)
    ensures
        r == is_watched(name@),
{
    let (_, ext) = split_extension_exec(name);
    proof {
        reveal_strlit("js");
        reveal_strlit("ts");
        reveal_strlit("json");
    }
    match &ext {
        Some(e) => str_eq(e.as_str(), "ts") || str_eq(e.as_str(), "js") || str_eq(e.as_str(), "json"),
        None => false,
    }
}

/// The name a script is known by.
pub fn script_stem_exec(name: &str, dir_name: Option<&str>) -> (r: String)
    ensures
        r@ == script_stem(name@, match dir_name { Some(d) => Some(d@), None => None::<Seq<char>> }),
{
    let (stem, _) = split_extension_exec(name);
    if str_eq(stem.as_str(), "index") {
        match dir_name {
            Some(d) => String::from_str(d),
            None => stem,
        }
    } else {
        stem
    }
}

/// The ids of a script's virtual modules: the static module, the static entry and the
/// dynamic module, in the script's directory.
pub open spec fn virtual_ids(abs_dir: Seq<char>, stem: Seq<char>) -> (Seq<char>, Seq<char>, Seq<char>) {
    (
        abs_dir + "/__v_stat_"@ + stem + ".ts"@,
        abs_dir + "/__v_sentry_"@ + stem + ".ts"@,
        abs_dir + "/__v_dyn_"@ + stem + ".ts"@,
    )
}

/// The ids of a script's virtual modules.
pub fn virtual_module_ids(abs_dir: &str, stem: &str) -> (r: (String, String, String))
    ensures
        (r.0@, r.1@, r.2@) == virtual_ids(abs_dir@, stem@),
{
    let mut a = concat(abs_dir, "/__v_stat_");
    push_str(&mut a, stem);
    push_str(&mut a, ".ts");
    let mut b = concat(abs_dir, "/__v_sentry_");
    push_str(&mut b, stem);
    push_str(&mut b, ".ts");
    let mut c = concat(abs_dir, "/__v_dyn_");
    push_str(&mut c, stem);
    push_str(&mut c, ".ts");
    (a, b, c)
}

/// The entry module of a dynamic bundle: it re-exports the script's dynamic module.
pub fn dynamic_entry_code(v_dyn: &str) -> (r: String)
    ensures
        r@ == "export * from '"@ + v_dyn@ + "';\n"@,
{
    let mut s = String::from_str("export * from '");
    push_str(&mut s, v_dyn);
    push_str(&mut s, "';\n");
    s
}

/// Whether a script's cached bundles can be used: its content hash is unchanged, both
/// bundles are there, and the files it imports are unchanged.
pub fn cache_reusable(cached_hash: u64, hash: u64, has_static: bool, has_dynamic: bool, deps_unchanged: bool) -> (r: bool)
    ensures
        r == (cached_hash == hash && has_static && has_dynamic && deps_unchanged),
{
    cached_hash == hash && has_static && has_dynamic && deps_unchanged
}

/// A file of the completions directory, as scanning finds it.
pub struct ScriptFile {
    /// The file's name (for a directory, the name of the index file found in it).
    pub name: String,
    /// For an index file inside a script directory, that directory's name; `None` for a file
    /// that lies directly in the completions directory.
    pub dir_name: Option<String>,
}

/// The name of the directory that holds a file: its script directory, or for a file that
/// lies directly in the completions directory, that directory's own name (`root`, which is
/// `None` where the directory's path has no final name).
pub open spec fn holder_name(f: ScriptFile, root: Option<Seq<char>>) -> Option<Seq<char>> {
    match f.dir_name {
        Some(d) => Some(d@),
        None => root,
    }
}

/// Which files are scripts that get bundled, in scan order: script files whose stem no
/// earlier script has; and the stems of the scripts skipped for a clash. `root` is the
/// completions directory's own name, the stem of an `index` file that lies directly in it.
pub open spec fn select_scripts(files: Seq<ScriptFile>, root: Option<Seq<char>>) -> (Seq<int>, Seq<Seq<char>>, Seq<int>)
    decreases files.len(),
{
    if files.len() == 0 {
        (Seq::<int>::empty(), Seq::<Seq<char>>::empty(), Seq::<int>::empty())
    } else {
        let (kept, stems, clashes) = select_scripts(files.drop_last(), root);
        let f = files.last();
        let i = files.len() - 1;
        if !is_script_file(f.name@) {
            (kept, stems, clashes)
        } else {
            let s = script_stem(f.name@, holder_name(f, root));
            if stems.contains(s) {
                (kept, stems, clashes.push(i))
            } else {
                (kept.push(i), stems.push(s), clashes)
            }
        }
    }
}

/// The scripts chosen for bundling have pairwise distinct stems, one for each file kept; each
/// kept file is a script listed with its own stem, and each file skipped for a clash has a
/// stem that a kept script already has.
pub proof fn lemma_selected_stems_distinct(files: Seq<ScriptFile>, root: Option<Seq<char>>)
    ensures
        ({
            let (k, st, c) = select_scripts(files, root);
            &&& k.len() == st.len()
            &&& forall|a: int, b: int| 0 <= a < b < st.len() ==> #[trigger] st[a] != #[trigger] st[b]
            &&& forall|j: int|
                0 <= j < k.len() ==> 0 <= #[trigger] k[j] < files.len() && is_script_file(files[k[j]].name@)
                    && st[j] == script_stem(files[k[j]].name@, holder_name(files[k[j]], root))
            &&& forall|j: int|
                0 <= j < c.len() ==> 0 <= #[trigger] c[j] < files.len() && is_script_file(files[c[j]].name@)
                    && st.contains(script_stem(files[c[j]].name@, holder_name(files[c[j]], root)))
        }),
    decreases files.len(),
{
    if files.len() > 0 {
        let dl = files.drop_last();
        lemma_selected_stems_distinct(dl, root);
        let (k0, s0, c0) = select_scripts(dl, root);
        let (k, st, c) = select_scripts(files, root);
        let f = files.last();
        let i = files.len() - 1;
        assert forall|j: int| 0 <= j < k0.len() implies files[#[trigger] k0[j]] == dl[k0[j]] by {}
        assert forall|j: int| 0 <= j < c0.len() implies files[#[trigger] c0[j]] == dl[c0[j]] by {}
        if is_script_file(f.name@) {
            let sm = script_stem(f.name@, holder_name(f, root));
            if s0.contains(sm) {
                assert forall|j: int| 0 <= j < c.len() implies 0 <= #[trigger] c[j] < files.len()
                    && is_script_file(files[c[j]].name@)
                    && st.contains(script_stem(files[c[j]].name@, holder_name(files[c[j]], root))) by {
                    if j < c0.len() {
                        assert(c[j] == c0[j]);
                    } else {
                        assert(c[j] == i);
                    }
                }
            } else {
                assert forall|a: int, b: int| 0 <= a < b < st.len() implies #[trigger] st[a] != #[trigger] st[b] by {
                    if b == st.len() - 1 {
                        assert(st[a] == s0[a]);
                        assert(st[b] == sm);
                    } else {
                        assert(st[a] == s0[a] && st[b] == s0[b]);
                    }
                }
                assert forall|j: int| 0 <= j < k.len() implies 0 <= #[trigger] k[j] < files.len()
                    && is_script_file(files[k[j]].name@)
                    && st[j] == script_stem(files[k[j]].name@, holder_name(files[k[j]], root)) by {
                    if j < k0.len() {
                        assert(k[j] == k0[j]);
                        assert(st[j] == s0[j]);
                    } else {
                        assert(k[j] == i);
                    }
                }
                assert forall|j: int| 0 <= j < c.len() implies 0 <= #[trigger] c[j] < files.len()
                    && is_script_file(files[c[j]].name@)
                    && st.contains(script_stem(files[c[j]].name@, holder_name(files[c[j]], root))) by {
                    assert(c[j] == c0[j]);
                    let x = script_stem(files[c[j]].name@, holder_name(files[c[j]], root));
                    let w = choose|w: int| 0 <= w < s0.len() && s0[w] == x;
                    assert(st[w] == s0[w]);
                }
            }
        }
    }
}

/// The scripts to bundle among the files of the completions directory, whose own name is
/// `root_name`: the positions of the files kept, their stems, and the positions of the files
/// skipped because their stem was taken.
pub fn plan_scripts(files: &Vec<ScriptFile>, root_name: Option<&str>) -> (r: (Vec<usize>, Vec<String>, Vec<usize>))
    ensures
        ({
            let (k, s, c) = select_scripts(files@, match root_name { Some(d) => Some(d@), None => None::<Seq<char>> });
            &&& crate::order::idx_view(r.0@) == k
            &&& strings_view(r.1@) == s
            &&& crate::order::idx_view(r.2@) == c
        }),
{
    let mut kept: Vec<usize> = Vec::new();
    let mut stems: Vec<String> = Vec::new();
    let mut clashes: Vec<usize> = Vec::new();
    let mut i: usize = 0;
    while i < files.len()
        invariant
            i <= files.len(),
            ({
                let (k, s, c) = select_scripts(files@.take(i as int), match root_name { Some(d) => Some(d@), None => None::<Seq<char>> });
                &&& crate::order::idx_view(kept@) == k
                &&& strings_view(stems@) == s
                &&& crate::order::idx_view(clashes@) == c
            }),
        decreases files.len() - i,
    {
        let f = &files[i];
        let ghost t = files@.take(i + 1);
        assert(t.drop_last() =~= files@.take(i as int));
        assert(t.last() == files@[i as int]);
        if is_script_file_exec(f.name.as_str()) {
            let s = match &f.dir_name {
                Some(d) => script_stem_exec(f.name.as_str(), Some(d.as_str())),
                None => script_stem_exec(f.name.as_str(), root_name),
            };
            let mut seen = false;
            let mut j: usize = 0;
            while j < stems.len()
                invariant
                    j <= stems.len(),
                    seen == strings_view(stems@).take(j as int).contains(s@),
                decreases stems.len() - j,
            {
                let ghost a = strings_view(stems@).take(j as int);
                let ghost b = strings_view(stems@).take(j + 1);
                assert(b =~= a.push(stems@[j as int]@));
                if str_eq(stems[j].as_str(), s.as_str()) {
                    seen = true;
                    assert(b[j as int] == s@);
                } else {
                    assert(b.contains(s@) == a.contains(s@)) by {
                        if b.contains(s@) {
                            let w = choose|w: int| 0 <= w < b.len() && b[w] == s@;
                            assert(w < j);
                            assert(a[w] == b[w]);
                        }
                        if a.contains(s@) {
                            let w = choose|w: int| 0 <= w < a.len() && a[w] == s@;
                            assert(b[w] == a[w]);
                        }
                    }
                }
                j = j + 1;
            }
            assert(strings_view(stems@).take(stems.len() as int) =~= strings_view(stems@));
            if seen {
                let ghost before = crate::order::idx_view(clashes@);
                clashes.push(i);
                assert(crate::order::idx_view(clashes@) =~= before.push(i as int));
            } else {
                let ghost bk = crate::order::idx_view(kept@);
                let ghost bs = strings_view(stems@);
                kept.push(i);
                stems.push(s);
                assert(crate::order::idx_view(kept@) =~= bk.push(i as int));
                assert(strings_view(stems@) =~= bs.push(s@));
            }
        }
        i = i + 1;
    }
    assert(files@.take(files.len() as int) =~= files@);
    (kept, stems, clashes)
}

/// The strings that a translation tree feeds to the hasher, in order: each namespace, then
/// each of its keys followed by its text.
pub open spec fn hash_stream(nss: Seq<(Seq<char>, LangTexts)>) -> Seq<Seq<char>>
    decreases nss.len(),
{
    if nss.len() == 0 {
        Seq::<Seq<char>>::empty()
    } else {
        hash_stream(nss.drop_last()) + seq![nss.last().0] + pairs_flat(nss.last().1)
    }
}

/// Keys and texts, alternating.
pub open spec fn pairs_flat(p: LangTexts) -> Seq<Seq<char>>
    decreases p.len(),
{
    if p.len() == 0 {
        Seq::<Seq<char>>::empty()
    } else {
        pairs_flat(p.drop_last()) + seq![p.last().0, p.last().1]
    }
}

/// The hash of a translation set: of its namespaces, keys and texts, in order.
pub fn translations_hash(nss: &Vec<(String, Vec<(String, String)>)>) -> (r: u64)
    ensures
        r == strings_hash(hash_stream(nss@.map_values(|n: (String, Vec<(String, String)>)| (n.0@, crate::i18n::pairs_view(n.1@))))),
{
    let ghost nv = nss@.map_values(|n: (String, Vec<(String, String)>)| (n.0@, crate::i18n::pairs_view(n.1@)));
    let mut stream: Vec<String> = Vec::new();
    let mut i: usize = 0;
    while i < nss.len()
        invariant
            nv == nss@.map_values(|n: (String, Vec<(String, String)>)| (n.0@, crate::i18n::pairs_view(n.1@))),
            i <= nss.len(),
            strings_view(stream@) == hash_stream(nv.take(i as int)),
        decreases nss.len() - i,
    {
        assert(nv.take(i + 1).drop_last() =~= nv.take(i as int));
        assert(nv.take(i + 1).last() == nv[i as int]);
        let ghost base = strings_view(stream@);
        stream.push(nss[i].0.clone());
        assert(strings_view(stream@) =~= base + seq![nss@[i as int].0@]);
        let es = &nss[i].1;
        let ghost pv = crate::i18n::pairs_view(es@);
        let mut k: usize = 0;
        while k < es.len()
            invariant
                i < nss.len(),
                *es == nss@[i as int].1,
                pv == crate::i18n::pairs_view(es@),
                k <= es.len(),
                strings_view(stream@) == base + seq![nss@[i as int].0@] + pairs_flat(pv.take(k as int)),
            decreases es.len() - k,
        {
            assert(pv.take(k + 1).drop_last() =~= pv.take(k as int));
            assert(pv.take(k + 1).last() == (es@[k as int].0@, es@[k as int].1@));
            let ghost b2 = strings_view(stream@);
            stream.push(es[k].0.clone());
            stream.push(es[k].1.clone());
            assert(strings_view(stream@) =~= b2 + seq![es@[k as int].0@, es@[k as int].1@]);
            k = k + 1;
        }
        assert(pv.take(es.len() as int) =~= pv);
        i = i + 1;
    }
    assert(nv.take(nss.len() as int) =~= nv);
    hash_strings(&stream)
}

/// The content hash of a script: of its source and of the translations it is bundled with.
pub fn content_hash(source: &str, translations_hash: u64) -> (r: u64)
    ensures
        r == source_hash(source@, translations_hash),
{
    hash_source(source, translations_hash)
}

/// What an incremental build keeps of a script between runs, so that an unchanged script
/// skips extraction, bundling and evaluation.
pub struct CachedFile {
    pub content_hash: u64,
    pub stem: String,
    pub mod_source: String,
    pub dyn_source: String,
    pub func_ids: Vec<String>,
    /// The local files the script imports, by absolute path, each with the hash of its
    /// content when the script was built.
    pub deps: Vec<(String, u64)>,
    /// The script's static bundle.
    pub static_bundle: Option<String>,
    /// The command tree its configuration evaluated to.
    pub command_node: Option<crate::cache::CommandNode>,
    /// The script's dynamic bundle.
    pub dyn_bundle: Option<String>,
    /// The compiled dynamic bundle.
    pub bytecode: Option<Vec<u8>>,
}

/// Whether each recorded import still has its recorded content: it could be read, and its
/// content hashes to the recorded hash. `current` holds what reading each file gave, in the
/// order of `deps`.
pub open spec fn deps_match(deps: Seq<(String, u64)>, current: Seq<Option<String>>) -> bool {
    &&& deps.len() == current.len()
    &&& forall|i: int|
        0 <= i < deps.len() ==> match #[trigger] current[i] {
            Some(c) => default_hash(c@) == deps[i].1,
            None => false,
        }
}

/// Whether the files a script imports are unchanged since it was built, given what reading
/// each of them now gives (in the order of `deps`; none where it could not be read).
pub fn deps_unchanged(deps: &Vec<(String, u64)>, current: &Vec<Option<String>>) -> (r: bool)
    ensures
        r == deps_match(deps@, current@),
{
    if deps.len() != current.len() {
        return false;
    }
    let mut i: usize = 0;
    while i < deps.len()
        invariant
            deps.len() == current.len(),
            i <= deps.len(),
            forall|j: int|
                0 <= j < i ==> match #[trigger] current@[j] {
                    Some(c) => default_hash(c@) == deps@[j].1,
                    None => false,
                },
        decreases deps.len() - i,
    {
        match &current[i] {
            Some(c) => {
                if hash_key(c.as_str()) != deps[i].1 {
                    return false;
                }
            },
            None => {
                return false;
            },
        }
        i = i + 1;
    }
    true
}

/// The modules that the bundler finds in memory: the scripts' virtual modules, the
/// environment module and the i18n modules.
pub struct VirtualPlugin {
    pub virtual_modules: Vec<(String, String)>,
    pub env_code: String,
    pub i18n_modules: Vec<(String, String)>,
}

/// Whether entry `i` of a module table has id `id`.
pub open spec fn id_pred(m: Seq<(Seq<char>, Seq<char>)>, id: Seq<char>) -> spec_fn(int) -> bool {
    |i: int| m[i].0 == id
}

/// The code of the module with id `id` in a table.
pub open spec fn table_get(m: Seq<(Seq<char>, Seq<char>)>, id: Seq<char>) -> Option<Seq<char>> {
    match crate::seqs::first_where(m.len() as int, id_pred(m, id)) {
        Some(i) => Some(m[i].1),
        None => None,
    }
}

/// The id that an import resolves to, written with forward slashes: the environment, an
/// i18n module, or one of the scripts' virtual modules; none for any other import.
pub open spec fn resolve_spec(p: VirtualPlugin, specifier: Seq<char>) -> Option<Seq<char>> {
    let s = crate::text::replace_char(specifier, '\\', '/');
    if s == VIRTUAL_ENV@ || s == VIRTUAL_SUGG@ || crate::ast::starts_with(s, VIRTUAL_I18N@)
        || table_get(crate::i18n::pairs_view(p.virtual_modules@), s) is Some {
        Some(s)
    } else {
        None
    }
}

/// The code of a resolved module: the environment's code; an i18n module's code (empty for
/// an unknown namespace); a virtual module's code; none for any other id.
pub open spec fn load_spec(p: VirtualPlugin, id: Seq<char>) -> Option<Seq<char>> {
    let s = crate::text::replace_char(id, '\\', '/');
    if id == VIRTUAL_ENV@ || id == VIRTUAL_SUGG@ {
        Some(p.env_code@)
    } else if crate::ast::starts_with(s, VIRTUAL_I18N@) {
        match table_get(crate::i18n::pairs_view(p.i18n_modules@), s) {
            Some(c) => Some(c),
            None => Some(Seq::<char>::empty()),
        }
    } else {
        table_get(crate::i18n::pairs_view(p.virtual_modules@), s)
    }
}

fn table_lookup(m: &Vec<(String, String)>, id: &str) -> (r: Option<String>)
    ensures
        match r {
            Some(c) => table_get(crate::i18n::pairs_view(m@), id@) == Some(c@),
            None => table_get(crate::i18n::pairs_view(m@), id@) is None,
        },
{
    let ghost mv = crate::i18n::pairs_view(m@);
    let ghost p = id_pred(mv, id@);
    let mut i: usize = 0;
    while i < m.len()
        invariant
            mv == crate::i18n::pairs_view(m@),
            p == id_pred(mv, id@),
            i <= m.len(),
            forall|j: int| 0 <= j < i ==> !#[trigger] p(j),
        decreases m.len() - i,
    {
        assert(mv[i as int] == (m@[i as int].0@, m@[i as int].1@));
        if str_eq(m[i].0.as_str(), id) {
            proof {
                crate::seqs::lemma_first_where_found(mv.len() as int, p, i as int);
            }
            return Some(m[i].1.clone());
        }
        i = i + 1;
    }
    proof {
        crate::seqs::lemma_first_where_none(mv.len() as int, p);
    }
    None
}

impl VirtualPlugin {
    /// The plugin's name.
    pub fn name(&self) -> (r: &'static str)
        ensures
            r@ == "virtual-plugin"@,
    {
        "virtual-plugin"
    }

    /// The id that an import resolves to, if the plugin provides it.
    pub fn resolve_id(&self, specifier: &str) -> (r: Option<String>)
        ensures
            match r {
                Some(s) => resolve_spec(*self, specifier@) == Some(s@),
                None => resolve_spec(*self, specifier@) is None,
            },
    {
        let s = crate::paths::path_to_slash(specifier);
        proof {
            reveal_strlit("virtual:i18n");
        }
        let i18n = crate::text::str_starts_with(s.as_str(), VIRTUAL_I18N);
        let known = table_lookup(&self.virtual_modules, s.as_str());
        if str_eq(s.as_str(), VIRTUAL_ENV) || str_eq(s.as_str(), VIRTUAL_SUGG) || i18n || known.is_some() {
            Some(s)
        } else {
            None
        }
    }

    /// The code of a module that the plugin provides.
    pub fn load(&self, id: &str) -> (r: Option<String>)
        ensures
            match r {
                Some(c) => load_spec(*self, id@) == Some(c@),
                None => load_spec(*self, id@) is None,
            },
    {
        if str_eq(id, VIRTUAL_ENV) || str_eq(id, VIRTUAL_SUGG) {
            return Some(self.env_code.clone());
        }
        let s = crate::paths::path_to_slash(id);
        if crate::text::str_starts_with(s.as_str(), VIRTUAL_I18N) {
            return match table_lookup(&self.i18n_modules, s.as_str()) {
                Some(c) => Some(c),
                None => Some(String::new()),
            };
        }
        table_lookup(&self.virtual_modules, s.as_str())
    }
}

} // verus!
