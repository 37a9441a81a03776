use vstd::prelude::*;
use crate::order::{sorted_order, sort_order, is_sort_order, permute, idx_view};
use crate::text::{chars_of, concat, push_char, string_from_chars, string_from_range, strings_view};

verus! {

/// One entry of a path completion listing.
#[derive(Debug, Clone)]
pub struct ScanDirEntry {
    pub display: String,
    pub value: String,
    pub is_dir: bool,
}

/// Whether `c` separates path components.
pub open spec fn is_sep(c: char) -> bool {
    c == '/' || c == '\\'
}

/// Position of the last separator in `s`, if any.
pub open spec fn last_sep(s: Seq<char>) -> Option<int>
    decreases s.len(),
{
    if s.len() == 0 {
        None
    } else if is_sep(s.last()) {
        Some(s.len() - 1)
    } else {
        last_sep(s.drop_last())
    }
}

/// The directory to list for a partly typed path, and the prefix to put before each name
/// found there: the typed directory part, or the current directory with no prefix; a bare
/// root or drive (`/`, `C:/`) is listed as itself.
pub open spec fn scan_split(input: Seq<char>) -> (Seq<char>, Seq<char>) {
    if input.len() == 0 {
        ("."@, Seq::<char>::empty())
    } else if is_sep(input.last()) {
        (input, input)
    } else {
        match last_sep(input) {
            Some(idx) => {
                let s = input.take(idx);
                let p = input.take(idx + 1);
                if s.len() == 0 || s.last() == ':' {
                    (p, p)
                } else {
                    (s, p)
                }
            },
            None => ("."@, Seq::<char>::empty()),
        }
    }
}

proof fn lemma_last_sep(s: Seq<char>, k: int)
    requires
        0 <= k <= s.len(),
        forall|j: int| k <= j < s.len() ==> !is_sep(#[trigger] s[j]),
    ensures
        last_sep(s) == last_sep(s.take(k)),
    decreases s.len() - k,
{
    if k < s.len() {
        assert(s.drop_last().take(k) =~= s.take(k));
        lemma_last_sep(s.drop_last(), k);
    } else {
        assert(s.take(k) =~= s);
    }
}

/// The directory to list and the prefix for the names in it.
pub fn split_scan_input(input: &str) -> (r: (String, String))
    ensures
        (r.0@, r.1@) == scan_split(input@),
{
    proof {
        reveal_strlit(".");
    }
    let v = chars_of(input);
    if v.len() == 0 {
        return (String::from_str("."), String::new());
    }
    let last = v[v.len() - 1];
    if last == '/' || last == '\\' {
        return (String::from_str(input), String::from_str(input));
    }
    let mut k = v.len();
    while k > 0 && !(v[k - 1] == '/' || v[k - 1] == '\\')
        invariant
            v@ == input@,
            k <= v.len(),
            forall|j: int| k <= j < v.len() ==> !is_sep(#[trigger] v@[j]),
        decreases k,
    {
        k = k - 1;
    }
    proof {
        lemma_last_sep(v@, k as int);
    }
    if k == 0 {
        assert(v@.take(0) =~= Seq::<char>::empty());
        return (String::from_str("."), String::new());
    }
    let idx = k - 1;
    proof {
        let t = v@.take(k as int);
        assert(t.last() == v@[idx as int]);
    }
    let p = string_from_range(&v, 0, idx + 1);
    assert(v@.subrange(0, idx + 1) =~= v@.take(idx + 1));
    if idx == 0 || v[idx - 1] == ':' {
        let p2 = string_from_range(&v, 0, idx + 1);
        assert(v@.take(idx as int).len() == idx);
        return (p, p2);
    }
    let s = string_from_range(&v, 0, idx);
    assert(v@.subrange(0, idx as int) =~= v@.take(idx as int));
    assert(v@.take(idx as int).last() == v@[idx - 1]);
    (s, p)
}

/// The listing entry for a name found in the scanned directory: a directory shown and
/// completed with a trailing `/`, a file completed with a trailing space.
pub open spec fn entry_view(prefix: Seq<char>, name: Seq<char>, is_dir: bool) -> (Seq<char>, Seq<char>, bool) {
    let full = prefix + name;
    if is_dir {
        (full.push('/'), full.push('/'), true)
    } else {
        (full, full.push(' '), false)
    }
}

/// Mathematical value of a [`ScanDirEntry`].
pub open spec fn scan_entry_view(e: ScanDirEntry) -> (Seq<char>, Seq<char>, bool) {
    (e.display@, e.value@, e.is_dir)
}

/// The listing entry for a name found in the scanned directory.
pub fn scan_entry(prefix: &str, name: &str, is_dir: bool) -> (r: ScanDirEntry)
    ensures
        scan_entry_view(r) == entry_view(prefix@, name@, is_dir),
{
    let full = concat(prefix, name);
    if is_dir {
        let mut d = full.clone();
        push_char(&mut d, '/');
        let mut v = full;
        push_char(&mut v, '/');
        ScanDirEntry { display: d, value: v, is_dir: true }
    } else {
        let mut v = full.clone();
        push_char(&mut v, ' ');
        ScanDirEntry { display: full, value: v, is_dir: false }
    }
}

/// The foreground colour a listing entry is shown in: blue for a directory, none for a file.
pub fn entry_color(e: &ScanDirEntry) -> (r: Option<String>)
    ensures
        match r {
            Some(c) => e.is_dir && c@ == "blue"@,
            None => !e.is_dir,
        },
{
    if e.is_dir {
        Some(String::from_str("blue"))
    } else {
        None
    }
}

/// Whether an entry is a directory.
pub open spec fn is_dir_entry() -> spec_fn((Seq<char>, Seq<char>, bool)) -> bool {
    |e: (Seq<char>, Seq<char>, bool)| e.2
}

/// Whether an entry is not a directory.
pub open spec fn is_file_entry() -> spec_fn((Seq<char>, Seq<char>, bool)) -> bool {
    |e: (Seq<char>, Seq<char>, bool)| !e.2
}

/// The listing in the order shown: directories first, then the rest, each group sorted by
/// display text, entries with equal text in their scan order.
pub open spec fn listing_order(es: Seq<(Seq<char>, Seq<char>, bool)>) -> Seq<(Seq<char>, Seq<char>, bool)> {
    let s = permute(es, sort_order(es.map_values(|e: (Seq<char>, Seq<char>, bool)| e.0)));
    s.filter(is_dir_entry()) + s.filter(is_file_entry())
}

/// Entries ordered by display text: no entry's text sorts before that of an entry before it.
pub open spec fn display_ascending(s: Seq<(Seq<char>, Seq<char>, bool)>) -> bool {
    forall|a: int, b: int| 0 <= a < b < s.len() ==> !crate::order::seq_lt(#[trigger] s[b].0, #[trigger] s[a].0)
}

proof fn lemma_filter_ascending(s: Seq<(Seq<char>, Seq<char>, bool)>, p: spec_fn((Seq<char>, Seq<char>, bool)) -> bool)
    requires
        display_ascending(s),
    ensures
        display_ascending(s.filter(p)),
    decreases s.len(),
{
    reveal(Seq::filter);
    if s.len() > 0 {
        let dl = s.drop_last();
        assert(display_ascending(dl)) by {
            assert forall|a: int, b: int| 0 <= a < b < dl.len() implies !crate::order::seq_lt(#[trigger] dl[b].0, #[trigger] dl[a].0) by {
                assert(dl[a] == s[a] && dl[b] == s[b]);
            }
        }
        lemma_filter_ascending(dl, p);
        let f0 = dl.filter(p);
        let f = s.filter(p);
        if p(s.last()) {
            assert(f == f0.push(s.last()));
            assert forall|a: int, b: int| 0 <= a < b < f.len() implies !crate::order::seq_lt(#[trigger] f[b].0, #[trigger] f[a].0) by {
                if b < f0.len() {
                    assert(f[a] == f0[a] && f[b] == f0[b]);
                } else {
                    assert(f[a] == f0[a]);
                    assert(f0.contains(f0[a]));
                    dl.lemma_filter_contains_rev(p, f0[a]);
                    let i = choose|i: int| 0 <= i < dl.len() && dl[i] == f0[a];
                    assert(s[i] == dl[i]);
                    assert(f[b] == s[s.len() - 1]);
                }
            }
        }
    }
}

proof fn lemma_filter_split_len(s: Seq<(Seq<char>, Seq<char>, bool)>)
    ensures
        s.filter(is_dir_entry()).len() + s.filter(is_file_entry()).len() == s.len(),
    decreases s.len(),
{
    reveal(Seq::filter);
    if s.len() > 0 {
        lemma_filter_split_len(s.drop_last());
    }
}

/// The listing shows every scanned entry once, directories before all other entries, and
/// each of the two groups in ascending order of display text.
pub proof fn lemma_listing_dirs_first_sorted(es: Seq<(Seq<char>, Seq<char>, bool)>)
    ensures
        listing_order(es).len() == es.len(),
        forall|a: int, b: int| 0 <= a < b < listing_order(es).len() && (#[trigger] listing_order(es)[b]).2 ==> (
        #[trigger] listing_order(es)[a]).2,
        forall|a: int, b: int|
            0 <= a < b < listing_order(es).len() && (#[trigger] listing_order(es)[a]).2 == (
            #[trigger] listing_order(es)[b]).2 ==> !crate::order::seq_lt(listing_order(es)[b].0, listing_order(es)[a].0),
{
    broadcast use vstd::seq_lib::group_filter_ensures;
    let keys = es.map_values(|e: (Seq<char>, Seq<char>, bool)| e.0);
    let r = sort_order(keys);
    crate::order::lemma_sort_order_exists(keys);
    let s = permute(es, r);
    assert(display_ascending(s)) by {
        assert forall|a: int, b: int| 0 <= a < b < s.len() implies !crate::order::seq_lt(#[trigger] s[b].0, #[trigger] s[a].0) by {
            assert(crate::order::key_before(keys, r[a], r[b]));
            assert(keys[r[a]] == s[a].0 && keys[r[b]] == s[b].0);
            crate::order::lemma_lt_asymmetric(s[a].0, s[b].0);
            crate::order::lemma_lt_irreflexive(s[a].0);
        }
    }
    let sd = s.filter(is_dir_entry());
    let sf = s.filter(is_file_entry());
    lemma_filter_ascending(s, is_dir_entry());
    lemma_filter_ascending(s, is_file_entry());
    lemma_filter_split_len(s);
    let l = listing_order(es);
    assert(l == sd + sf);
    assert forall|a: int, b: int| 0 <= a < b < l.len() && (#[trigger] l[b]).2 implies (#[trigger] l[a]).2 by {
        if b >= sd.len() {
            assert(l[b] == sf[b - sd.len()]);
            assert(is_file_entry()(sf[b - sd.len()]));
        }
        assert(l[a] == sd[a]);
        assert(is_dir_entry()(sd[a]));
    }
    assert forall|a: int, b: int|
        0 <= a < b < l.len() && (#[trigger] l[a]).2 == (#[trigger] l[b]).2 implies !crate::order::seq_lt(l[b].0, l[a].0) by {
        if b < sd.len() {
            assert(l[a] == sd[a] && l[b] == sd[b]);
        } else if a >= sd.len() {
            assert(l[a] == sf[a - sd.len()] && l[b] == sf[b - sd.len()]);
        } else {
            assert(l[a] == sd[a]);
            assert(is_dir_entry()(sd[a]));
            assert(l[b] == sf[b - sd.len()]);
            assert(is_file_entry()(sf[b - sd.len()]));
        }
    }
}

/// The views of listing entries.
pub open spec fn scan_entries_view(v: Seq<ScanDirEntry>) -> Seq<(Seq<char>, Seq<char>, bool)> {
    v.map_values(|e: ScanDirEntry| scan_entry_view(e))
}

/// The listing sorted as shown: directories first, then the rest, each group by display
/// text.
pub fn sort_scan_entries(es: &Vec<ScanDirEntry>) -> (r: Vec<ScanDirEntry>)
    ensures
        scan_entries_view(r@) == listing_order(scan_entries_view(es@)),
{
    let ghost ev = scan_entries_view(es@);
    let mut names: Vec<String> = Vec::new();
    for i in 0..es.len()
        invariant
            ev == scan_entries_view(es@),
            strings_view(names@) == ev.take(i as int).map_values(|e: (Seq<char>, Seq<char>, bool)| e.0),
    {
        names.push(es[i].display.clone());
        assert(ev.take(i + 1).map_values(|e: (Seq<char>, Seq<char>, bool)| e.0) =~= ev.take(i as int).map_values(
            |e: (Seq<char>, Seq<char>, bool)| e.0,
        ).push(es@[i as int].display@));
        assert(strings_view(names@) =~= strings_view(names@.drop_last()).push(names@.last()@));
    }
    assert(ev.take(es.len() as int) =~= ev);
    let order = sorted_order(&names);
    let ghost ord = idx_view(order@);
    let ghost sorted = permute(ev, ord);
    let mut dirs: Vec<ScanDirEntry> = Vec::new();
    let mut files: Vec<ScanDirEntry> = Vec::new();
    let mut k: usize = 0;
    while k < order.len()
        invariant
            ev == scan_entries_view(es@),
            ord == idx_view(order@),
            is_sort_order(ev.map_values(|e: (Seq<char>, Seq<char>, bool)| e.0), ord),
            sorted == permute(ev, ord),
            k <= order.len(),
            scan_entries_view(dirs@) == sorted.take(k as int).filter(is_dir_entry()),
            scan_entries_view(files@) == sorted.take(k as int).filter(is_file_entry()),
        decreases order.len() - k,
    {
        assert(ord[k as int] == order@[k as int] as int);
        let x = order[k];
        let e = &es[x];
        let ghost t1 = sorted.take(k + 1);
        assert(t1.drop_last() =~= sorted.take(k as int));
        assert(t1.last() == scan_entry_view(es@[x as int]));
        let ghost d0 = scan_entries_view(dirs@);
        let ghost f0 = scan_entries_view(files@);
        let copy = ScanDirEntry { display: e.display.clone(), value: e.value.clone(), is_dir: e.is_dir };
        if e.is_dir {
            dirs.push(copy);
            assert(t1.filter(is_dir_entry()) == sorted.take(k as int).filter(is_dir_entry()).push(t1.last())) by {
                reveal(Seq::filter);
            }
            assert(t1.filter(is_file_entry()) == sorted.take(k as int).filter(is_file_entry())) by {
                reveal(Seq::filter);
            }
            assert(scan_entries_view(dirs@) =~= d0.push(t1.last()));
        } else {
            files.push(copy);
            assert(t1.filter(is_file_entry()) == sorted.take(k as int).filter(is_file_entry()).push(t1.last())) by {
                reveal(Seq::filter);
            }
            assert(t1.filter(is_dir_entry()) == sorted.take(k as int).filter(is_dir_entry())) by {
                reveal(Seq::filter);
            }
            assert(scan_entries_view(files@) =~= f0.push(t1.last()));
        }
        k = k + 1;
    }
    assert(sorted.take(order.len() as int) =~= sorted);
    let ghost dv = scan_entries_view(dirs@);
    let ghost fv = scan_entries_view(files@);
    dirs.append(&mut files);
    assert(scan_entries_view(dirs@) =~= dv + fv);
    dirs
}

/// The listing for a partly typed path, given what the scanned directory holds (each name and
/// whether it is a directory, in scan order): one entry per name, sorted as shown.
pub fn scan_path_entries(prefix: &str, found: &Vec<(String, bool)>) -> (r: Vec<ScanDirEntry>)
    ensures
        scan_entries_view(r@) == listing_order(
            found@.map_values(|f: (String, bool)| entry_view(prefix@, f.0@, f.1)),
        ),
{
    let ghost want = found@.map_values(|f: (String, bool)| entry_view(prefix@, f.0@, f.1));
    let mut es: Vec<ScanDirEntry> = Vec::new();
    for i in 0..found.len()
        invariant
            want == found@.map_values(|f: (String, bool)| entry_view(prefix@, f.0@, f.1)),
            scan_entries_view(es@) == want.take(i as int),
    {
        let ghost prev = scan_entries_view(es@);
        es.push(scan_entry(prefix, found[i].0.as_str(), found[i].1));
        assert(scan_entries_view(es@) =~= prev.push(want[i as int]));
        assert(want.take(i + 1) =~= want.take(i as int).push(want[i as int]));
    }
    assert(want.take(found.len() as int) =~= want);
    sort_scan_entries(&es)
}

/// The HTTP methods that `__fetch_raw` sends.
#[derive(Debug, Clone, Copy, PartialEq, Eq, Structural)]
pub enum HttpMethod {
    Get,
    Post,
    Put,
    Delete,
    Patch,
}

/// The method a request names, in any case: `POST`, `PUT`, `DELETE` or `PATCH`, and `GET`
/// for anything else.
pub open spec fn method_for(upper: Seq<char>) -> HttpMethod {
    if upper == "POST"@ {
        HttpMethod::Post
    } else if upper == "PUT"@ {
        HttpMethod::Put
    } else if upper == "DELETE"@ {
        HttpMethod::Delete
    } else if upper == "PATCH"@ {
        HttpMethod::Patch
    } else {
        HttpMethod::Get
    }
}

/// The method a request names, in any case.
pub fn http_method(method: &str) -> (r: HttpMethod)
    ensures
        r == method_for(crate::text::uppercase(method@)),
        crate::text::ascii_only(method@) ==> r == method_for(crate::text::ascii_uppercase(method@)),
{
    let u = crate::text::to_uppercase(method);
    if crate::text::str_eq(u.as_str(), "POST") {
        HttpMethod::Post
    } else if crate::text::str_eq(u.as_str(), "PUT") {
        HttpMethod::Put
    } else if crate::text::str_eq(u.as_str(), "DELETE") {
        HttpMethod::Delete
    } else if crate::text::str_eq(u.as_str(), "PATCH") {
        HttpMethod::Patch
    } else {
        HttpMethod::Get
    }
}

/// Parts joined by single spaces.
pub open spec fn join_spaces(p: Seq<Seq<char>>) -> Seq<char>
    decreases p.len(),
{
    if p.len() == 0 {
        Seq::<char>::empty()
    } else if p.len() == 1 {
        p[0]
    } else {
        join_spaces(p.drop_last()) + seq![' '] + p.last()
    }
}

/// The text of a `__ui` log call: its arguments, each turned into text, joined by spaces.
pub fn join_args(parts: &Vec<String>) -> (r: String)
    ensures
        r@ == join_spaces(strings_view(parts@)),
{
    let ghost pv = strings_view(parts@);
    let mut s = String::new();
    let mut i: usize = 0;
    while i < parts.len()
        invariant
            pv == strings_view(parts@),
            i <= parts.len(),
            i > 0 ==> s@ == join_spaces(pv.take(i as int)),
            i == 0 ==> s@ == Seq::<char>::empty(),
        decreases parts.len() - i,
    {
        let ghost t = pv.take(i + 1);
        assert(t.drop_last() =~= pv.take(i as int));
        if i > 0 {
            push_char(&mut s, ' ');
        } else {
            assert(t =~= seq![pv[0]]);
        }
        crate::text::push_str(&mut s, parts[i].as_str());
        i = i + 1;
    }
    assert(pv.take(parts.len() as int) =~= pv);
    s
}

} // verus!
