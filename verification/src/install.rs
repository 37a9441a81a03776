use vstd::prelude::*;
use crate::order::{sorted_order, sort_order, is_sort_order, permute, idx_view};
use crate::seqs::{first_where, lemma_first_where_found, lemma_first_where_none, lemma_first_where_some};
use crate::text::{concat, push_str, str_eq, strings_view};

verus! {

/// The registry of completion scripts.
pub const REGISTRY_URL: &'static str = "https://getsugg.github.io/sugg-completions/registry.json";

/// Where the files of the registry's scripts are downloaded from.
pub const RAW_BASE: &'static str = "https://raw.githubusercontent.com/getsugg/sugg-completions/master/completions";

/// How many times a failed download is tried again.
pub const MAX_RETRIES: u32 = 3;

/// The wait before the first retry, in milliseconds; it doubles with each retry.
pub const BASE_DELAY_MS: u64 = 500;

/// One script of the registry.
pub struct ScriptEntry {
    pub name: String,
    pub description: String,
    /// The script's file, relative to the download base.
    pub source: String,
    /// Shared modules it imports, relative to the download base.
    pub deps: Vec<String>,
    /// Its translations: for each namespace, the languages it has a file for.
    pub i18n: Vec<(String, Vec<String>)>,
}

/// The views of a script's translations: each namespace with its languages.
pub open spec fn i18n_view(e: ScriptEntry) -> Seq<(Seq<char>, Seq<Seq<char>>)> {
    e.i18n@.map_values(|p: (String, Vec<String>)| (p.0@, strings_view(p.1@)))
}

/// Why an installation could not start.
#[derive(Debug, Clone, PartialEq, Eq)]
pub enum InstallError {
    /// Neither script names nor `--all` were given.
    NoScripts,
    /// The registry has no script of this name.
    NotFound(String),
}

/// The names of the registry's scripts.
pub open spec fn registry_names(reg: Seq<ScriptEntry>) -> Seq<Seq<char>> {
    reg.map_values(|s: ScriptEntry| s.name@)
}

/// Whether script `i` of the registry is named `n`.
pub open spec fn entry_named(reg: Seq<ScriptEntry>, n: Seq<char>) -> spec_fn(int) -> bool {
    |i: int| reg[i].name@ == n
}

/// Whether requested name `j` is missing from the registry.
pub open spec fn unknown_pred(reg: Seq<ScriptEntry>, names: Seq<Seq<char>>) -> spec_fn(int) -> bool {
    |j: int| !registry_names(reg).contains(names[j])
}

/// The first requested name that the registry lacks.
pub open spec fn missing_name(reg: Seq<ScriptEntry>, names: Seq<Seq<char>>) -> Option<Seq<char>> {
    match first_where(names.len() as int, unknown_pred(reg, names)) {
        Some(j) => Some(names[j]),
        None => None,
    }
}

fn registry_has(reg: &Vec<ScriptEntry>, name: &String) -> (r: Option<usize>)
    ensures
        match r {
            Some(i) => i < reg@.len() && reg@[i as int].name@ == name@ && first_where(reg@.len() as int, entry_named(reg@, name@)) == Some(i as int),
            None => first_where(reg@.len() as int, entry_named(reg@, name@)) is None && !registry_names(reg@).contains(name@),
        },
{
    let ghost p = entry_named(reg@, name@);
    let mut i: usize = 0;
    while i < reg.len()
        invariant
            p == entry_named(reg@, name@),
            i <= reg.len(),
            forall|j: int| 0 <= j < i ==> !#[trigger] p(j),
        decreases reg.len() - i,
    {
        if str_eq(reg[i].name.as_str(), name.as_str()) {
            proof {
                lemma_first_where_found(reg@.len() as int, p, i as int);
            }
            return Some(i);
        }
        i = i + 1;
    }
    proof {
        lemma_first_where_none(reg@.len() as int, p);
        if registry_names(reg@).contains(name@) {
            let j = choose|j: int| 0 <= j < registry_names(reg@).len() && registry_names(reg@)[j] == name@;
            assert(p(j));
        }
    }
    None
}

/// The scripts to install: all of the registry's with `--all`, else those named, each of
/// which the registry must have.
pub fn select_targets(reg: &Vec<ScriptEntry>, names: &Vec<String>, all: bool) -> (r: Result<Vec<String>, InstallError>)
    ensures
        match r {
            Ok(t) => if all {
                strings_view(t@) == registry_names(reg@)
            } else {
                names@.len() > 0 && missing_name(reg@, strings_view(names@)) is None && strings_view(t@) == strings_view(names@)
            },
            Err(InstallError::NoScripts) => !all && names@.len() == 0,
            Err(InstallError::NotFound(n)) => !all && names@.len() > 0 && missing_name(reg@, strings_view(names@)) == Some(n@),
        },
{
    if all {
        let mut t: Vec<String> = Vec::new();
        for i in 0..reg.len()
            invariant
                strings_view(t@) == registry_names(reg@).take(i as int),
        {
            t.push(reg[i].name.clone());
            assert(registry_names(reg@).take(i + 1) =~= registry_names(reg@).take(i as int).push(reg@[i as int].name@));
            assert(strings_view(t@) =~= strings_view(t@.drop_last()).push(t@.last()@));
        }
        assert(registry_names(reg@).take(reg.len() as int) =~= registry_names(reg@));
        return Ok(t);
    }
    if names.len() == 0 {
        return Err(InstallError::NoScripts);
    }
    let ghost nv = strings_view(names@);
    let ghost p = unknown_pred(reg@, nv);
    let mut j: usize = 0;
    while j < names.len()
        invariant
            nv == strings_view(names@),
            p == unknown_pred(reg@, nv),
            !all,
            names@.len() > 0,
            j <= names.len(),
            forall|k: int| 0 <= k < j ==> !#[trigger] p(k),
        decreases names.len() - j,
    {
        assert(nv[j as int] == names@[j as int]@);
        match registry_has(reg, &names[j]) {
            None => {
                proof {
                    assert(p(j as int));
                    lemma_first_where_found(names@.len() as int, p, j as int);
                }
                let n = names[j].clone();
                assert(missing_name(reg@, nv) == Some(n@));
                return Err(InstallError::NotFound(n));
            },
            Some(i) => {
                assert(registry_names(reg@)[i as int] == names@[j as int]@);
            },
        }
        j = j + 1;
    }
    proof {
        lemma_first_where_none(names@.len() as int, p);
    }
    let mut t: Vec<String> = Vec::new();
    for i in 0..names.len()
        invariant
            nv == strings_view(names@),
            strings_view(t@) == nv.take(i as int),
    {
        t.push(names[i].clone());
        assert(nv.take(i + 1) =~= nv.take(i as int).push(names@[i as int]@));
        assert(strings_view(t@) =~= strings_view(t@.drop_last()).push(t@.last()@));
    }
    assert(nv.take(names.len() as int) =~= nv);
    Ok(t)
}

/// `s` with each run of equal neighbours kept once (`Vec::dedup`).
pub open spec fn dedup_adjacent(s: Seq<Seq<char>>) -> Seq<Seq<char>>
    decreases s.len(),
{
    if s.len() == 0 {
        s
    } else {
        let r = dedup_adjacent(s.drop_last());
        if s.len() > 1 && s[s.len() - 2] == s.last() {
            r
        } else {
            r.push(s.last())
        }
    }
}

/// The strings sorted, each kept once.
pub open spec fn sorted_unique(s: Seq<Seq<char>>) -> Seq<Seq<char>> {
    dedup_adjacent(permute(s, sort_order(s)))
}

/// The strings sorted, each kept once.
pub fn sort_dedup(v: &Vec<String>) -> (r: Vec<String>)
    ensures
        strings_view(r@) == sorted_unique(strings_view(v@)),
{
    let order = sorted_order(v);
    let ghost ord = idx_view(order@);
    let ghost sorted = permute(strings_view(v@), ord);
    let mut r: Vec<String> = Vec::new();
    let mut k: usize = 0;
    while k < order.len()
        invariant
            ord == idx_view(order@),
            is_sort_order(strings_view(v@), ord),
            sorted == permute(strings_view(v@), ord),
            k <= order.len(),
            strings_view(r@) == dedup_adjacent(sorted.take(k as int)),
            k > 0 ==> r@.len() > 0 && r@.last()@ == sorted[k - 1],
        decreases order.len() - k,
    {
        assert(ord[k as int] == order@[k as int] as int);
        let x = order[k];
        let ghost t1 = sorted.take(k + 1);
        assert(t1.drop_last() =~= sorted.take(k as int));
        assert(t1.last() == v@[x as int]@);
        let ghost prev = strings_view(r@);
        if k > 0 && str_eq(r[r.len() - 1].as_str(), v[x].as_str()) {
            assert(t1[t1.len() - 2] == sorted[k - 1]);
        } else {
            r.push(v[x].clone());
            assert(strings_view(r@) =~= prev.push(v@[x as int]@));
            if k > 0 {
                assert(t1[t1.len() - 2] == sorted[k - 1]);
            }
        }
        k = k + 1;
    }
    assert(sorted.take(order.len() as int) =~= sorted);
    r
}

/// What has been planned so far: the files to download and the shared modules already in the
/// list.
pub struct PlanV {
    pub files: Seq<Seq<char>>,
    pub seen: Seq<Seq<char>>,
}

/// The plan with the shared modules `deps` added, each only the first time any script
/// needs it.
pub open spec fn add_deps(p: PlanV, deps: Seq<Seq<char>>) -> PlanV
    decreases deps.len(),
{
    if deps.len() == 0 {
        p
    } else {
        let q = add_deps(p, deps.drop_last());
        let d = deps.last();
        if q.seen.contains(d) {
            q
        } else {
            PlanV { files: q.files.push(d), seen: q.seen.push(d) }
        }
    }
}

/// The translation file of a namespace for a language.
pub open spec fn i18n_file(ns: Seq<char>, lang: Seq<char>) -> Seq<char> {
    ns + "/i18n/"@ + lang + ".json"@
}

/// The plan with one namespace's translation files added, for each of its languages that the
/// fallback chains name.
pub open spec fn add_i18n(p: PlanV, ns: Seq<char>, langs: Seq<Seq<char>>, fbs: Seq<Seq<char>>) -> PlanV
    decreases langs.len(),
{
    if langs.len() == 0 {
        p
    } else {
        let q = add_i18n(p, ns, langs.drop_last(), fbs);
        if fbs.contains(langs.last()) {
            PlanV { files: q.files.push(i18n_file(ns, langs.last())), seen: q.seen }
        } else {
            q
        }
    }
}

/// The plan with the translation files of each namespace added, namespace after namespace.
pub open spec fn add_i18n_all(p: PlanV, nss: Seq<(Seq<char>, Seq<Seq<char>>)>, fbs: Seq<Seq<char>>) -> PlanV
    decreases nss.len(),
{
    if nss.len() == 0 {
        p
    } else {
        add_i18n(add_i18n_all(p, nss.drop_last(), fbs), nss.last().0, nss.last().1, fbs)
    }
}

/// The plan with one script added: its file, its new shared modules, its translations.
pub open spec fn add_script(p: PlanV, e: ScriptEntry, fbs: Seq<Seq<char>>) -> PlanV {
    let q = PlanV { files: p.files.push(e.source@), seen: p.seen };
    add_i18n_all(add_deps(q, strings_view(e.deps@)), i18n_view(e), fbs)
}

/// The plan for some scripts, each found by name in the registry.
pub open spec fn download_plan(reg: Seq<ScriptEntry>, targets: Seq<Seq<char>>, fbs: Seq<Seq<char>>) -> PlanV
    decreases targets.len(),
{
    if targets.len() == 0 {
        PlanV { files: Seq::<Seq<char>>::empty(), seen: Seq::<Seq<char>>::empty() }
    } else {
        let p = download_plan(reg, targets.drop_last(), fbs);
        match first_where(reg.len() as int, entry_named(reg, targets.last())) {
            Some(i) => add_script(p, reg[i], fbs),
            None => p,
        }
    }
}

/// Every shared module counted as already planned is in the file list.
pub open spec fn seen_planned(p: PlanV) -> bool {
    forall|x: Seq<char>| p.seen.contains(x) ==> p.files.contains(x)
}

proof fn lemma_add_deps(p: PlanV, deps: Seq<Seq<char>>)
    requires
        seen_planned(p),
    ensures
        seen_planned(add_deps(p, deps)),
        forall|x: Seq<char>| p.files.contains(x) ==> add_deps(p, deps).files.contains(x),
        forall|k: int| 0 <= k < deps.len() ==> add_deps(p, deps).files.contains(#[trigger] deps[k]),
    decreases deps.len(),
{
    broadcast use vstd::seq_lib::lemma_seq_contains_after_push;
    if deps.len() > 0 {
        lemma_add_deps(p, deps.drop_last());
        let r = add_deps(p, deps);
        assert forall|k: int| 0 <= k < deps.len() implies r.files.contains(#[trigger] deps[k]) by {
            if k < deps.len() - 1 {
                assert(deps.drop_last()[k] == deps[k]);
            }
        }
    }
}

proof fn lemma_add_i18n(p: PlanV, name: Seq<char>, langs: Seq<Seq<char>>, fbs: Seq<Seq<char>>)
    requires
        seen_planned(p),
    ensures
        seen_planned(add_i18n(p, name, langs, fbs)),
        add_i18n(p, name, langs, fbs).seen == p.seen,
        forall|x: Seq<char>| p.files.contains(x) ==> add_i18n(p, name, langs, fbs).files.contains(x),
        forall|k: int|
            0 <= k < langs.len() && fbs.contains(#[trigger] langs[k]) ==> add_i18n(p, name, langs, fbs).files.contains(
                i18n_file(name, langs[k]),
            ),
    decreases langs.len(),
{
    broadcast use vstd::seq_lib::lemma_seq_contains_after_push;
    if langs.len() > 0 {
        lemma_add_i18n(p, name, langs.drop_last(), fbs);
        let r = add_i18n(p, name, langs, fbs);
        assert forall|k: int| 0 <= k < langs.len() && fbs.contains(#[trigger] langs[k]) implies r.files.contains(
            i18n_file(name, langs[k]),
        ) by {
            if k < langs.len() - 1 {
                assert(langs.drop_last()[k] == langs[k]);
            }
        }
    }
}

/// Whether the plan holds, for each namespace, the translation file of each of its languages
/// that the fallback chains name.
pub open spec fn covers_i18n(files: Seq<Seq<char>>, nss: Seq<(Seq<char>, Seq<Seq<char>>)>, fbs: Seq<Seq<char>>) -> bool {
    forall|k: int, m: int|
        0 <= k < nss.len() && 0 <= m < nss[k].1.len() && fbs.contains(#[trigger] nss[k].1[m]) ==> files.contains(
            i18n_file(nss[k].0, nss[k].1[m]),
        )
}

proof fn lemma_add_i18n_all(p: PlanV, nss: Seq<(Seq<char>, Seq<Seq<char>>)>, fbs: Seq<Seq<char>>)
    requires
        seen_planned(p),
    ensures
        seen_planned(add_i18n_all(p, nss, fbs)),
        forall|x: Seq<char>| p.files.contains(x) ==> add_i18n_all(p, nss, fbs).files.contains(x),
        covers_i18n(add_i18n_all(p, nss, fbs).files, nss, fbs),
    decreases nss.len(),
{
    if nss.len() > 0 {
        let prev = nss.drop_last();
        lemma_add_i18n_all(p, prev, fbs);
        let q = add_i18n_all(p, prev, fbs);
        lemma_add_i18n(q, nss.last().0, nss.last().1, fbs);
        let r = add_i18n_all(p, nss, fbs);
        assert forall|k: int, m: int|
            0 <= k < nss.len() && 0 <= m < nss[k].1.len() && fbs.contains(#[trigger] nss[k].1[m]) implies r.files.contains(
            i18n_file(nss[k].0, nss[k].1[m]),
        ) by {
            if k < nss.len() - 1 {
                assert(prev[k] == nss[k]);
                assert(fbs.contains(prev[k].1[m]));
                assert(q.files.contains(i18n_file(prev[k].0, prev[k].1[m])));
            } else {
                assert(nss[k] == nss.last());
            }
        }
    }
}

/// Whether the plan holds everything that script `e` needs: its file, every shared module it
/// imports, and its translation file for each of its languages that the fallback chains name.
pub open spec fn covers(files: Seq<Seq<char>>, e: ScriptEntry, fbs: Seq<Seq<char>>) -> bool {
    &&& files.contains(e.source@)
    &&& forall|k: int| 0 <= k < e.deps@.len() ==> files.contains(#[trigger] e.deps@[k]@)
    &&& covers_i18n(files, i18n_view(e), fbs)
}

proof fn lemma_covers_grows(a: Seq<Seq<char>>, b: Seq<Seq<char>>, e: ScriptEntry, fbs: Seq<Seq<char>>)
    requires
        covers(a, e, fbs),
        forall|x: Seq<char>| a.contains(x) ==> b.contains(x),
    ensures
        covers(b, e, fbs),
{
}

proof fn lemma_add_script(p: PlanV, e: ScriptEntry, fbs: Seq<Seq<char>>)
    requires
        seen_planned(p),
    ensures
        seen_planned(add_script(p, e, fbs)),
        forall|x: Seq<char>| p.files.contains(x) ==> add_script(p, e, fbs).files.contains(x),
        covers(add_script(p, e, fbs).files, e, fbs),
{
    broadcast use vstd::seq_lib::lemma_seq_contains_after_push;
    let q = PlanV { files: p.files.push(e.source@), seen: p.seen };
    let dv = strings_view(e.deps@);
    let iv = i18n_view(e);
    lemma_add_deps(q, dv);
    lemma_add_i18n_all(add_deps(q, dv), iv, fbs);
    let r = add_script(p, e, fbs);
    let d = add_deps(q, dv);
    assert(q.files.contains(e.source@));
    assert(d.files.contains(e.source@));
    assert forall|x: Seq<char>| p.files.contains(x) implies r.files.contains(x) by {
        assert(q.files.contains(x));
        assert(d.files.contains(x));
    }
    assert forall|k: int| 0 <= k < e.deps@.len() implies r.files.contains(#[trigger] e.deps@[k]@) by {
        assert(dv[k] == e.deps@[k]@);
    }
}

/// The download plan is complete: for each chosen script that the registry has, its file,
/// every shared module it imports, and its translations for the languages of the fallback
/// chains are all downloaded.
pub proof fn lemma_plan_covers_targets(reg: Seq<ScriptEntry>, targets: Seq<Seq<char>>, fbs: Seq<Seq<char>>)
    ensures
        seen_planned(download_plan(reg, targets, fbs)),
        forall|j: int|
            0 <= j < targets.len() ==> match first_where(reg.len() as int, entry_named(reg, #[trigger] targets[j])) {
                Some(i) => covers(download_plan(reg, targets, fbs).files, reg[i], fbs),
                None => true,
            },
    decreases targets.len(),
{
    if targets.len() > 0 {
        let prev = targets.drop_last();
        lemma_plan_covers_targets(reg, prev, fbs);
        let p = download_plan(reg, prev, fbs);
        let r = download_plan(reg, targets, fbs);
        match first_where(reg.len() as int, entry_named(reg, targets.last())) {
            Some(i) => {
                lemma_first_where_some(reg.len() as int, entry_named(reg, targets.last()));
                lemma_add_script(p, reg[i], fbs);
            },
            None => {},
        }
        assert forall|j: int| 0 <= j < targets.len() implies match first_where(reg.len() as int, entry_named(reg, #[trigger] targets[j])) {
            Some(i) => covers(r.files, reg[i], fbs),
            None => true,
        } by {
            if j < targets.len() - 1 {
                assert(prev[j] == targets[j]);
                if let Some(i) = first_where(reg.len() as int, entry_named(reg, targets[j])) {
                    assert(covers(p.files, reg[i], fbs));
                    lemma_covers_grows(p.files, r.files, reg[i], fbs);
                }
            }
        }
    }
}

pub(crate) fn contains_str(v: &Vec<String>, s: &String) -> (b: bool)
    ensures
        b == strings_view(v@).contains(s@),
{
    let mut i: usize = 0;
    while i < v.len()
        invariant
            i <= v.len(),
            forall|j: int| 0 <= j < i ==> v@[j]@ != s@,
        decreases v.len() - i,
    {
        if str_eq(v[i].as_str(), s.as_str()) {
            assert(strings_view(v@)[i as int] == s@);
            return true;
        }
        i = i + 1;
    }
    assert forall|j: int| 0 <= j < strings_view(v@).len() implies strings_view(v@)[j] != s@ by {
        assert(strings_view(v@)[j] == v@[j]@);
    }
    false
}

/// The files to download for the chosen scripts, in order: for each script its file, then
/// each shared module it needs that no earlier script brought, then its translation files for
/// the languages of the fallback chains.
pub fn plan_downloads(reg: &Vec<ScriptEntry>, targets: &Vec<String>, fallbacks: &Vec<String>) -> (r: Vec<String>)
    requires
        forall|j: int| 0 <= j < targets@.len() ==> registry_names(reg@).contains(#[trigger] targets@[j]@),
    ensures
        strings_view(r@) == download_plan(reg@, strings_view(targets@), strings_view(fallbacks@)).files,
{
    let ghost tv = strings_view(targets@);
    let ghost fv = strings_view(fallbacks@);
    let mut files: Vec<String> = Vec::new();
    let mut seen: Vec<String> = Vec::new();
    let mut t: usize = 0;
    while t < targets.len()
        invariant
            tv == strings_view(targets@),
            fv == strings_view(fallbacks@),
            t <= targets.len(),
            forall|j: int| 0 <= j < targets@.len() ==> registry_names(reg@).contains(#[trigger] targets@[j]@),
            strings_view(files@) == download_plan(reg@, tv.take(t as int), fv).files,
            strings_view(seen@) == download_plan(reg@, tv.take(t as int), fv).seen,
        decreases targets.len() - t,
    {
        assert(tv.take(t + 1).drop_last() =~= tv.take(t as int));
        assert(tv.take(t + 1).last() == targets@[t as int]@);
        let found = registry_has(reg, &targets[t]);
        let i = match found {
            Some(i) => i,
            None => {
                assert(registry_names(reg@).contains(targets@[t as int]@));
                return files;
            },
        };
        let e = &reg[i];
        let ghost p0 = PlanV { files: strings_view(files@), seen: strings_view(seen@) };
        let ghost fprev = strings_view(files@);
        files.push(e.source.clone());
        assert(strings_view(files@) =~= fprev.push(e.source@));
        let ghost q0 = PlanV { files: strings_view(files@), seen: strings_view(seen@) };
        let mut d: usize = 0;
        while d < e.deps.len()
            invariant
                i < reg@.len(),
                *e == reg@[i as int],
                d <= e.deps.len(),
                add_deps(q0, strings_view(e.deps@).take(d as int)) == (PlanV { files: strings_view(files@), seen: strings_view(seen@) }),
            decreases e.deps.len() - d,
        {
            assert(strings_view(e.deps@).take(d + 1).drop_last() =~= strings_view(e.deps@).take(d as int));
            assert(strings_view(e.deps@).take(d + 1).last() == e.deps@[d as int]@);
            if !contains_str(&seen, &e.deps[d]) {
                let ghost f1 = strings_view(files@);
                let ghost s1 = strings_view(seen@);
                files.push(e.deps[d].clone());
                seen.push(e.deps[d].clone());
                assert(strings_view(files@) =~= f1.push(e.deps@[d as int]@));
                assert(strings_view(seen@) =~= s1.push(e.deps@[d as int]@));
            }
            d = d + 1;
        }
        assert(strings_view(e.deps@).take(e.deps.len() as int) =~= strings_view(e.deps@));
        let ghost r0 = PlanV { files: strings_view(files@), seen: strings_view(seen@) };
        let ghost nv = i18n_view(*e);
        let mut n: usize = 0;
        while n < e.i18n.len()
            invariant
                i < reg@.len(),
                *e == reg@[i as int],
                nv == i18n_view(*e),
                fv == strings_view(fallbacks@),
                n <= e.i18n.len(),
                add_i18n_all(r0, nv.take(n as int), fv) == (PlanV { files: strings_view(files@), seen: strings_view(seen@) }),
            decreases e.i18n.len() - n,
        {
            assert(nv.take(n + 1).drop_last() =~= nv.take(n as int));
            assert(nv.take(n + 1).last() == nv[n as int]);
            let ns = &e.i18n[n].0;
            let langs = &e.i18n[n].1;
            assert(nv[n as int] == (ns@, strings_view(langs@)));
            let ghost q0 = PlanV { files: strings_view(files@), seen: strings_view(seen@) };
            let mut l: usize = 0;
            while l < langs.len()
                invariant
                    fv == strings_view(fallbacks@),
                    l <= langs.len(),
                    add_i18n(q0, ns@, strings_view(langs@).take(l as int), fv) == (PlanV { files: strings_view(files@), seen: strings_view(seen@) }),
                decreases langs.len() - l,
            {
                assert(strings_view(langs@).take(l + 1).drop_last() =~= strings_view(langs@).take(l as int));
                assert(strings_view(langs@).take(l + 1).last() == langs@[l as int]@);
                if contains_str(fallbacks, &langs[l]) {
                    let mut f = concat(ns.as_str(), "/i18n/");
                    push_str(&mut f, langs[l].as_str());
                    push_str(&mut f, ".json");
                    let ghost f1 = strings_view(files@);
                    files.push(f);
                    assert(strings_view(files@) =~= f1.push(i18n_file(ns@, langs@[l as int]@)));
                }
                l = l + 1;
            }
            assert(strings_view(langs@).take(langs.len() as int) =~= strings_view(langs@));
            n = n + 1;
        }
        assert(nv.take(e.i18n.len() as int) =~= nv);
        assert(add_script(p0, reg@[i as int], fv) == (PlanV { files: strings_view(files@), seen: strings_view(seen@) }));
        t = t + 1;
    }
    assert(tv.take(targets.len() as int) =~= tv);
    files
}

/// What to do after a download attempt failed.
#[derive(Debug, Clone, Copy, PartialEq, Eq, Structural)]
pub enum RetryStep {
    /// Wait this many milliseconds and try again.
    RetryAfter(u64),
    /// Report the last error.
    GiveUp,
}

/// After failed attempt number `attempt` (from 0): wait `500 * 2^attempt` ms and retry while
/// retries are left; else give up.
pub fn after_failed_attempt(attempt: u32) -> (r: RetryStep)
    ensures
        attempt < MAX_RETRIES ==> r == RetryStep::RetryAfter((BASE_DELAY_MS * vstd::arithmetic::power2::pow2(attempt as nat)) as u64),
        attempt >= MAX_RETRIES ==> r == RetryStep::GiveUp,
{
    if attempt < MAX_RETRIES {
        let mut d: u64 = BASE_DELAY_MS;
        let mut k: u32 = 0;
        proof {
            vstd::arithmetic::power2::lemma2_to64();
        }
        while k < attempt
            invariant
                k <= attempt < MAX_RETRIES,
                d == BASE_DELAY_MS * vstd::arithmetic::power2::pow2(k as nat),
            decreases attempt - k,
        {
            proof {
                vstd::arithmetic::power2::lemma2_to64();
                vstd::arithmetic::power2::lemma_pow2_unfold((k + 1) as nat);
            }
            d = d * 2;
            k = k + 1;
        }
        RetryStep::RetryAfter(d)
    } else {
        RetryStep::GiveUp
    }
}

/// Where a file of the registry is downloaded from.
pub fn download_url(base: &str, relative_path: &str) -> (r: String)
    ensures
        r@ == base@ + "/"@ + relative_path@,
{
    let mut u = concat(base, "/");
    push_str(&mut u, relative_path);
    u
}

/// Whether a file that is to be downloaded is fetched: always with `--force`, else only where
/// it is not there yet.
pub fn should_download(present: bool, force: bool) -> (r: bool)
    ensures
        r == (!present || force),
{
    !present || force
}

} // verus!
