use vstd::prelude::*;
use crate::order::{sorted_order, sort_order, is_sort_order, permute, idx_view, seq_lt};
use crate::seqs::{no_repeats, first_where};
use crate::text::{strings_view, push_str, concat};

verus! {

/// A lower-case hexadecimal digit.
pub open spec fn hex_digit(d: int) -> char {
    if d < 10 {
        (('0' as int) + d) as char
    } else {
        (('a' as int) + d - 10) as char
    }
}

/// One character as it stands inside a JSON string: `"` and `\` escaped, the control
/// characters with a short escape where JSON has one and as `\u00XX` otherwise, every
/// other character as it is.
pub open spec fn json_escape(c: char) -> Seq<char> {
    if c == '"' {
        seq!['\\', '"']
    } else if c == '\\' {
        seq!['\\', '\\']
    } else if c == '\u{8}' {
        seq!['\\', 'b']
    } else if c == '\u{c}' {
        seq!['\\', 'f']
    } else if c == '\n' {
        seq!['\\', 'n']
    } else if c == '\r' {
        seq!['\\', 'r']
    } else if c == '\t' {
        seq!['\\', 't']
    } else if (c as u32) < 0x20 {
        seq!['\\', 'u', '0', '0', hex_digit((c as int) / 16), hex_digit((c as int) % 16)]
    } else {
        seq![c]
    }
}

/// The characters of `s`, each escaped for a JSON string.
pub open spec fn json_escape_all(s: Seq<char>) -> Seq<char>
    decreases s.len(),
{
    if s.len() == 0 {
        Seq::<char>::empty()
    } else {
        json_escape_all(s.drop_last()) + json_escape(s.last())
    }
}

/// `s` as a JSON string literal.
pub open spec fn json_quote(s: Seq<char>) -> Seq<char> {
    seq!['"'] + json_escape_all(s) + seq!['"']
}

/// `serde_json::to_string` on a string. Claimed, as serde_json's `format_escaped_str` and
/// its escape table show: a `"`, the string with `"`, `\` and the control characters below
/// U+0020 escaped (`\b \t \n \f \r` where JSON has a short form, `\u00XX` in lower-case hex
/// otherwise) and every other character unchanged, and a closing `"`. Serialising a string
/// into memory cannot fail.
#[verifier::external_body]
pub(crate) fn json_string(s: &str) -> (r: String)
    ensures
        r@ == json_quote(s@),
{
    serde_json::to_string(s).unwrap()
}

/// The translations of one namespace: key and text.
pub struct Namespace {
    pub name: String,
    pub entries: Vec<(String, String)>,
}

/// The views of key/text pairs.
pub open spec fn pairs_view(v: Seq<(String, String)>) -> Seq<(Seq<char>, Seq<char>)> {
    v.map_values(|p: (String, String)| (p.0@, p.1@))
}

/// The first components of pairs.
pub open spec fn firsts<V>(v: Seq<(Seq<char>, V)>) -> Seq<Seq<char>> {
    v.map_values(|p: (Seq<char>, V)| p.0)
}

/// Mathematical value of a [`Namespace`].
pub open spec fn namespace_view(n: Namespace) -> (Seq<char>, Seq<(Seq<char>, Seq<char>)>) {
    (n.name@, pairs_view(n.entries@))
}

/// The views of namespaces.
pub open spec fn namespaces_view(v: Seq<Namespace>) -> Seq<(Seq<char>, Seq<(Seq<char>, Seq<char>)>)> {
    v.map_values(|n: Namespace| namespace_view(n))
}

/// One export line of an i18n module.
pub open spec fn export_line(key: Seq<char>, text: Seq<char>) -> Seq<char> {
    "export const "@ + key + " = "@ + json_quote(text) + ";\n"@
}

/// The export lines of some entries, in the given order.
pub open spec fn export_lines(entries: Seq<(Seq<char>, Seq<char>)>) -> Seq<char>
    decreases entries.len(),
{
    if entries.len() == 0 {
        Seq::<char>::empty()
    } else {
        export_lines(entries.drop_last()) + export_line(entries.last().0, entries.last().1)
    }
}

/// The code of one namespace's module: one export per key, keys sorted.
pub open spec fn module_code(entries: Seq<(Seq<char>, Seq<char>)>) -> Seq<char> {
    export_lines(permute(entries, sort_order(firsts(entries))))
}

/// The module id of a namespace.
pub open spec fn module_id(ns: Seq<char>) -> Seq<char> {
    "virtual:i18n/"@ + ns
}

/// Whether a namespace has a name.
pub open spec fn has_name() -> spec_fn((Seq<char>, Seq<(Seq<char>, Seq<char>)>)) -> bool {
    |n: (Seq<char>, Seq<(Seq<char>, Seq<char>)>)| n.0.len() > 0
}

/// A namespace's module id and code.
pub open spec fn to_module() -> spec_fn((Seq<char>, Seq<(Seq<char>, Seq<char>)>)) -> (Seq<char>, Seq<char>) {
    |n: (Seq<char>, Seq<(Seq<char>, Seq<char>)>)| (module_id(n.0), module_code(n.1))
}

/// The namespaces with a name, sorted by name.
pub open spec fn named_sorted(nss: Seq<(Seq<char>, Seq<(Seq<char>, Seq<char>)>)>) -> Seq<(Seq<char>, Seq<(Seq<char>, Seq<char>)>)> {
    permute(nss, sort_order(firsts(nss))).filter(has_name())
}

/// The i18n modules: for each namespace with a name, sorted by name, its module id and code.
pub open spec fn i18n_modules(nss: Seq<(Seq<char>, Seq<(Seq<char>, Seq<char>)>)>) -> Seq<(Seq<char>, Seq<char>)> {
    named_sorted(nss).map_values(to_module())
}

fn entry_keys_vec(v: &Vec<(String, String)>) -> (r: Vec<String>)
    ensures
        strings_view(r@) == firsts(pairs_view(v@)),
{
    let mut r: Vec<String> = Vec::new();
    for i in 0..v.len()
        invariant
            strings_view(r@) == firsts(pairs_view(v@.take(i as int))),
    {
        r.push(v[i].0.clone());
        assert(firsts(pairs_view(v@.take(i + 1))) =~= firsts(pairs_view(v@.take(i as int))).push(v@[i as int].0@));
        assert(strings_view(r@) =~= strings_view(r@.drop_last()).push(r@.last()@));
    }
    assert(v@.take(v.len() as int) =~= v@);
    r
}

/// The code of one namespace's module.
fn generate_module_code(entries: &Vec<(String, String)>) -> (r: String)
    ensures
        r@ == module_code(pairs_view(entries@)),
{
    let keys = entry_keys_vec(entries);
    let order = sorted_order(&keys);
    let ghost ord = idx_view(order@);
    let ghost sorted = permute(pairs_view(entries@), ord);
    let mut code = String::new();
    let mut k: usize = 0;
    while k < order.len()
        invariant
            ord == idx_view(order@),
            is_sort_order(firsts(pairs_view(entries@)), ord),
            sorted == permute(pairs_view(entries@), ord),
            k <= order.len(),
            code@ == export_lines(sorted.take(k as int)),
        decreases order.len() - k,
    {
        assert(ord[k as int] == order@[k as int] as int);
        let x = order[k];
        let key = &entries[x].0;
        let value = json_string(entries[x].1.as_str());
        push_str(&mut code, "export const ");
        push_str(&mut code, key.as_str());
        push_str(&mut code, " = ");
        push_str(&mut code, value.as_str());
        push_str(&mut code, ";\n");
        assert(sorted.take(k + 1).drop_last() =~= sorted.take(k as int));
        assert(sorted.take(k + 1).last() == (entries@[x as int].0@, entries@[x as int].1@));
        assert(code@ =~= export_lines(sorted.take(k as int)) + export_line(entries@[x as int].0@, entries@[x as int].1@));
        k = k + 1;
    }
    assert(sorted.take(order.len() as int) =~= sorted);
    code
}

/// The module ids and code of the i18n virtual modules: one module `virtual:i18n/<ns>` per
/// namespace with a name, in namespace order, exporting each key of the namespace as a
/// string constant, keys in order.
pub fn generate_i18n_modules(nss: &Vec<Namespace>) -> (r: Vec<(String, String)>)
    ensures
        pairs_view(r@) == i18n_modules(namespaces_view(nss@)),
{
    let mut names: Vec<String> = Vec::new();
    for i in 0..nss.len()
        invariant
            strings_view(names@) == firsts(namespaces_view(nss@.take(i as int))),
    {
        names.push(nss[i].name.clone());
        assert(firsts(namespaces_view(nss@.take(i + 1))) =~= firsts(namespaces_view(nss@.take(i as int))).push(
            nss@[i as int].name@,
        ));
        assert(strings_view(names@) =~= strings_view(names@.drop_last()).push(names@.last()@));
    }
    assert(nss@.take(nss.len() as int) =~= nss@);
    let order = sorted_order(&names);
    let ghost ord = idx_view(order@);
    let ghost nv = namespaces_view(nss@);
    let ghost sorted = permute(nv, ord);
    let ghost keep = has_name();
    let ghost conv = to_module();
    let mut out: Vec<(String, String)> = Vec::new();
    let mut k: usize = 0;
    while k < order.len()
        invariant
            ord == idx_view(order@),
            nv == namespaces_view(nss@),
            is_sort_order(firsts(nv), ord),
            sorted == permute(nv, ord),
            k <= order.len(),
            keep == has_name(),
            conv == to_module(),
            pairs_view(out@) == sorted.take(k as int).filter(keep).map_values(conv),
        decreases order.len() - k,
    {
        assert(ord[k as int] == order@[k as int] as int);
        let x = order[k];
        let ns = &nss[x];
        let ghost prev = pairs_view(out@);
        assert(sorted.take(k + 1).drop_last() =~= sorted.take(k as int));
        assert(sorted.take(k + 1).last() == namespace_view(nss@[x as int]));
        proof {
            reveal(Seq::filter);
        }
        let ghost t1 = sorted.take(k + 1);
        let ghost f0 = sorted.take(k as int).filter(keep);
        assert(t1.last().0 == ns.name@);
        if ns.name.unicode_len() > 0 {
            let id = concat("virtual:i18n/", ns.name.as_str());
            let code = generate_module_code(&ns.entries);
            out.push((id, code));
            assert(keep(t1.last()));
            assert(t1.filter(keep) == f0.push(t1.last())) by {
                reveal(Seq::filter);
                assert(t1.drop_last() == sorted.take(k as int));
            }
            assert(f0.push(t1.last()).map_values(conv) =~= f0.map_values(conv).push(conv(t1.last())));
            assert(pairs_view(out@) =~= prev.push((module_id(ns.name@), module_code(pairs_view(ns.entries@)))));
        } else {
            assert(!keep(t1.last()));
            assert(t1.filter(keep) == f0) by {
                reveal(Seq::filter);
                assert(t1.drop_last() == sorted.take(k as int));
            }
            assert(pairs_view(out@) =~= prev);
        }
        k = k + 1;
    }
    assert(sorted.take(order.len() as int) =~= sorted);
    proof {
        assert(i18n_modules(nv) == sorted.filter(keep).map_values(conv));
    }
    out
}

// ---------------------------------------------------------------------------------------
// Sorted association lists: the ordered maps that the declarations file is built from.
// ---------------------------------------------------------------------------------------

/// The keys are strictly increasing.
pub open spec fn keys_sorted<V>(l: Seq<(Seq<char>, V)>) -> bool {
    forall|i: int, j: int| 0 <= i < j < l.len() ==> seq_lt(l[i].0, l[j].0)
}

/// `l` with `k` bound to `v`, as an ordered map's insert does: the pair replaces the one with
/// key `k`, or goes in before the first larger key.
pub open spec fn sorted_put<V>(l: Seq<(Seq<char>, V)>, k: Seq<char>, v: V) -> Seq<(Seq<char>, V)>
    decreases l.len(),
{
    if l.len() == 0 {
        seq![(k, v)]
    } else if l[0].0 == k {
        l.update(0, (k, v))
    } else if seq_lt(k, l[0].0) {
        seq![(k, v)] + l
    } else {
        seq![l[0]] + sorted_put(l.drop_first(), k, v)
    }
}

/// The value bound to `k`, or `d`.
pub open spec fn sorted_get_or<V>(l: Seq<(Seq<char>, V)>, k: Seq<char>, d: V) -> V
    decreases l.len(),
{
    if l.len() == 0 {
        d
    } else if l[0].0 == k {
        l[0].1
    } else {
        sorted_get_or(l.drop_first(), k, d)
    }
}

proof fn lemma_put_at<V>(l: Seq<(Seq<char>, V)>, k: Seq<char>, v: V, d: V, p: int) -> (found: bool)
    requires
        keys_sorted(l),
        0 <= p <= l.len(),
        forall|i: int| 0 <= i < p ==> seq_lt(#[trigger] l[i].0, k),
        p < l.len() ==> !seq_lt(l[p].0, k),
    ensures
        found == (p < l.len() && l[p].0 == k),
        found ==> sorted_put(l, k, v) == l.update(p, (k, v)) && sorted_get_or(l, k, d) == l[p].1,
        !found ==> sorted_get_or(l, k, d) == d,
        !found ==> sorted_put(l, k, v) == l.insert(p, (k, v)),
        keys_sorted(sorted_put(l, k, v)),
    decreases l.len(),
{
    let found = p < l.len() && l[p].0 == k;
    if l.len() == 0 {
        assert(l.insert(0, (k, v)) =~= seq![(k, v)]);
    } else if p == 0 {
        if l[0].0 == k {
        } else {
            crate::order::lemma_lt_total(k, l[0].0);
            assert(seq_lt(k, l[0].0));
            assert forall|i: int| 0 <= i < l.len() implies #[trigger] l[i].0 != k by {
                if i > 0 {
                    assert(seq_lt(l[0].0, l[i].0));
                    crate::order::lemma_lt_transitive(k, l[0].0, l[i].0);
                    crate::order::lemma_lt_irreflexive(k);
                }
            }
            lemma_get_absent(l, k, d);
            assert(l.insert(0, (k, v)) =~= seq![(k, v)] + l);
            let r = seq![(k, v)] + l;
            assert forall|i: int, j: int| 0 <= i < j < r.len() implies seq_lt(r[i].0, r[j].0) by {
                if i == 0 && j > 1 {
                    crate::order::lemma_lt_transitive(k, l[0].0, l[j - 1].0);
                }
            }
        }
    } else {
        assert(seq_lt(l[0].0, k));
        crate::order::lemma_lt_irreflexive(k);
        crate::order::lemma_lt_asymmetric(l[0].0, k);
        let t = l.drop_first();
        assert(keys_sorted(t)) by {
            assert forall|i: int, j: int| 0 <= i < j < t.len() implies seq_lt(t[i].0, t[j].0) by {
                assert(t[i] == l[i + 1] && t[j] == l[j + 1]);
            }
        }
        assert forall|i: int| 0 <= i < p - 1 implies seq_lt(#[trigger] t[i].0, k) by {
            assert(t[i] == l[i + 1]);
        }
        lemma_put_at(t, k, v, d, p - 1);
        if found {
            assert(sorted_put(l, k, v) =~= l.update(p, (k, v)));
        } else {
            assert(sorted_put(l, k, v) =~= l.insert(p, (k, v)));
        }
        let r = sorted_put(l, k, v);
        let rt = sorted_put(t, k, v);
        assert(r == seq![l[0]] + rt);
        assert forall|i: int, j: int| 0 <= i < j < r.len() implies seq_lt(r[i].0, r[j].0) by {
            if i == 0 {
                assert(r[j] == rt[j - 1]);
                if rt[j - 1].0 == k {
                } else {
                    let jj = j - 1;
                    if found {
                        assert(rt == t.update(p - 1, (k, v)));
                        assert(rt[jj].0 == t[jj].0);
                        assert(t[jj] == l[jj + 1]);
                    } else {
                        assert(rt == t.insert(p - 1, (k, v)));
                        if jj < p - 1 {
                            assert(rt[jj] == t[jj]);
                            assert(t[jj] == l[jj + 1]);
                        } else {
                            assert(rt[jj] == t[jj - 1]);
                            assert(t[jj - 1] == l[jj]);
                        }
                    }
                }
            } else {
                assert(r[i] == rt[i - 1] && r[j] == rt[j - 1]);
            }
        }
    }
    found
}

proof fn lemma_get_absent<V>(l: Seq<(Seq<char>, V)>, k: Seq<char>, d: V)
    requires
        forall|i: int| 0 <= i < l.len() ==> #[trigger] l[i].0 != k,
    ensures
        sorted_get_or(l, k, d) == d,
    decreases l.len(),
{
    if l.len() > 0 {
        let t = l.drop_first();
        assert forall|i: int| 0 <= i < t.len() implies #[trigger] t[i].0 != k by {
            assert(t[i] == l[i + 1]);
        }
        lemma_get_absent(t, k, d);
    }
}

/// Where `k` is or would go in the sorted list `l`: the first position whose key is not
/// smaller than `k`, and whether that key is `k`.
fn sorted_find<V>(l: &Vec<(String, V)>, k: &str) -> (r: (bool, usize))
    ensures
        r.1 <= l@.len(),
        forall|i: int| 0 <= i < r.1 ==> seq_lt(#[trigger] l@[i].0@, k@),
        (r.1 as int) < l@.len() ==> !seq_lt(l@[r.1 as int].0@, k@),
        r.0 == ((r.1 as int) < l@.len() && l@[r.1 as int].0@ == k@),
{
    let mut i: usize = 0;
    while i < l.len() && crate::order::str_lt(l[i].0.as_str(), k)
        invariant
            i <= l@.len(),
            forall|j: int| 0 <= j < i ==> seq_lt(#[trigger] l@[j].0@, k@),
        decreases l.len() - i,
    {
        i = i + 1;
    }
    let found = i < l.len() && crate::text::str_eq(l[i].0.as_str(), k);
    (found, i)
}

// ---------------------------------------------------------------------------------------
// The translation tree: namespace -> key -> language -> text.
// ---------------------------------------------------------------------------------------

/// Texts by language.
pub type LangTexts = Seq<(Seq<char>, Seq<char>)>;

/// Translations by key.
pub type KeyTexts = Seq<(Seq<char>, LangTexts)>;

/// Keys by namespace.
pub type I18nTree = Seq<(Seq<char>, KeyTexts)>;

/// A value read from a translation file.
pub enum I18nValue {
    /// A JSON string.
    Text(String),
    /// Any other JSON value, in its JSON form.
    Json(String),
}

/// One translation file: its language (the file stem) and its entries.
pub struct LangFile {
    pub lang: String,
    pub entries: Vec<(String, I18nValue)>,
}

/// The translation files of one namespace.
pub struct I18nDir {
    pub ns: String,
    pub files: Vec<LangFile>,
}

/// `s` with every `*/` (scanning left to right) turned into `* /`.
pub open spec fn break_comment_ends(s: Seq<char>) -> Seq<char>
    decreases s.len(),
{
    if s.len() < 2 {
        s
    } else if s[0] == '*' && s[1] == '/' {
        seq!['*', ' ', '/'] + break_comment_ends(s.skip(2))
    } else {
        seq![s[0]] + break_comment_ends(s.skip(1))
    }
}

/// A translation as it may stand inside a doc comment: on one line, without closing it.
pub open spec fn doc_text(s: Seq<char>) -> Seq<char> {
    break_comment_ends(crate::text::replace_char(s, '\n', ' '))
}

/// The text of a value in the declarations file.
pub open spec fn value_text(v: I18nValue) -> Seq<char> {
    match v {
        I18nValue::Text(s) => doc_text(s@),
        I18nValue::Json(s) => s@,
    }
}

/// The tree with `text` put under `ns`, `key`, `lang`.
pub open spec fn put3(m: I18nTree, ns: Seq<char>, key: Seq<char>, lang: Seq<char>, text: Seq<char>) -> I18nTree {
    let g2 = sorted_get_or(m, ns, Seq::<(Seq<char>, LangTexts)>::empty());
    let g3 = sorted_get_or(g2, key, Seq::<(Seq<char>, Seq<char>)>::empty());
    sorted_put(m, ns, sorted_put(g2, key, sorted_put(g3, lang, text)))
}

/// The tree with the entries of one file put in, in order.
pub open spec fn put_entries(m: I18nTree, ns: Seq<char>, lang: Seq<char>, es: Seq<(String, I18nValue)>) -> I18nTree
    decreases es.len(),
{
    if es.len() == 0 {
        m
    } else {
        put3(put_entries(m, ns, lang, es.drop_last()), ns, es.last().0@, lang, value_text(es.last().1))
    }
}

/// The tree with the files of one namespace put in, in order.
pub open spec fn put_files(m: I18nTree, ns: Seq<char>, fs: Seq<LangFile>) -> I18nTree
    decreases fs.len(),
{
    if fs.len() == 0 {
        m
    } else {
        put_entries(put_files(m, ns, fs.drop_last()), ns, fs.last().lang@, fs.last().entries@)
    }
}

/// The translation tree of some namespaces' files.
pub open spec fn i18n_tree(ds: Seq<I18nDir>) -> I18nTree
    decreases ds.len(),
{
    if ds.len() == 0 {
        Seq::<(Seq<char>, KeyTexts)>::empty()
    } else {
        put_files(i18n_tree(ds.drop_last()), ds.last().ns@, ds.last().files@)
    }
}

/// Every level of the tree has strictly increasing keys.
pub open spec fn tree_sorted(m: I18nTree) -> bool {
    &&& keys_sorted(m)
    &&& forall|i: int| 0 <= i < m.len() ==> keys_sorted(#[trigger] m[i].1)
    &&& forall|i: int, j: int| 0 <= i < m.len() && 0 <= j < m[i].1.len() ==> keys_sorted(#[trigger] m[i].1[j].1)
}

/// The views of translations by key.
pub open spec fn key_texts_view(v: Seq<(String, Vec<(String, String)>)>) -> KeyTexts {
    v.map_values(|p: (String, Vec<(String, String)>)| (p.0@, pairs_view(p.1@)))
}

/// The view of a translation tree.
pub open spec fn tree_view(v: Seq<(String, Vec<(String, Vec<(String, String)>)>)>) -> I18nTree {
    v.map_values(|p: (String, Vec<(String, Vec<(String, String)>)>)| (p.0@, key_texts_view(p.1@)))
}

fn put_lang(m: &mut Vec<(String, String)>, lang: &str, text: String)
    requires
        keys_sorted(pairs_view(old(m)@)),
    ensures
        pairs_view(final(m)@) == sorted_put(pairs_view(old(m)@), lang@, text@),
        keys_sorted(pairs_view(final(m)@)),
{
    let ghost l = pairs_view(m@);
    let (found, p) = sorted_find(m, lang);
    proof {
        assert forall|i: int| 0 <= i < p implies seq_lt(#[trigger] l[i].0, lang@) by {
            assert(l[i].0 == m@[i].0@);
        }
        lemma_put_at(l, lang@, text@, text@, p as int);
    }
    let tv = text;
    if found {
        m.set(p, (String::from_str(lang), tv));
        assert(pairs_view(m@) =~= l.update(p as int, (lang@, text@)));
    } else {
        m.insert(p, (String::from_str(lang), tv));
        assert(pairs_view(m@) =~= l.insert(p as int, (lang@, text@)));
    }
}

fn put_key(m: &mut Vec<(String, Vec<(String, String)>)>, key: &str, lang: &str, text: String)
    requires
        keys_sorted(key_texts_view(old(m)@)),
        forall|i: int| 0 <= i < old(m)@.len() ==> keys_sorted(#[trigger] key_texts_view(old(m)@)[i].1),
    ensures
        key_texts_view(final(m)@) == sorted_put(
            key_texts_view(old(m)@),
            key@,
            sorted_put(sorted_get_or(key_texts_view(old(m)@), key@, Seq::<(Seq<char>, Seq<char>)>::empty()), lang@, text@),
        ),
        keys_sorted(key_texts_view(final(m)@)),
        forall|i: int| 0 <= i < final(m)@.len() ==> keys_sorted(#[trigger] key_texts_view(final(m)@)[i].1),
{
    let ghost l = key_texts_view(m@);
    let ghost e = Seq::<(Seq<char>, Seq<char>)>::empty();
    let (found, p) = sorted_find(m, key);
    proof {
        assert forall|i: int| 0 <= i < p implies seq_lt(#[trigger] l[i].0, key@) by {
            assert(l[i].0 == m@[i].0@);
        }
    }
    if found {
        let mut slot: (String, Vec<(String, String)>) = (String::new(), Vec::new());
        m.set_and_swap(p, &mut slot);
        let (name, mut inner) = slot;
        let ghost g = pairs_view(inner@);
        proof {
            lemma_put_at(l, key@, sorted_put(g, lang@, text@), e, p as int);
            assert(keys_sorted(l[p as int].1));
        }
        put_lang(&mut inner, lang, text);
        let mut back = (name, inner);
        m.set_and_swap(p, &mut back);
        assert(key_texts_view(m@) =~= l.update(p as int, (key@, sorted_put(g, lang@, text@))));
        assert forall|i: int| 0 <= i < m@.len() implies keys_sorted(#[trigger] key_texts_view(m@)[i].1) by {
            if i != p {
                assert(key_texts_view(m@)[i] == l[i]);
            }
        }
    } else {
        proof {
            lemma_put_at(l, key@, sorted_put(e, lang@, text@), e, p as int);
        }
        let mut inner: Vec<(String, String)> = Vec::new();
        assert(pairs_view(inner@) =~= e);
        put_lang(&mut inner, lang, text);
        m.insert(p, (String::from_str(key), inner));
        assert(key_texts_view(m@) =~= l.insert(p as int, (key@, sorted_put(e, lang@, text@))));
        assert forall|i: int| 0 <= i < m@.len() implies keys_sorted(#[trigger] key_texts_view(m@)[i].1) by {
            if i < p {
                assert(key_texts_view(m@)[i] == l[i]);
            } else if i > p {
                assert(key_texts_view(m@)[i] == l[i - 1]);
            }
        }
    }
}

fn put_translation(m: &mut Vec<(String, Vec<(String, Vec<(String, String)>)>)>, ns: &str, key: &str, lang: &str, text: String)
    requires
        tree_sorted(tree_view(old(m)@)),
    ensures
        tree_view(final(m)@) == put3(tree_view(old(m)@), ns@, key@, lang@, text@),
        tree_sorted(tree_view(final(m)@)),
{
    let ghost l = tree_view(m@);
    let ghost e2 = Seq::<(Seq<char>, LangTexts)>::empty();
    let ghost e3 = Seq::<(Seq<char>, Seq<char>)>::empty();
    let (found, p) = sorted_find(m, ns);
    proof {
        assert forall|i: int| 0 <= i < p implies seq_lt(#[trigger] l[i].0, ns@) by {
            assert(l[i].0 == m@[i].0@);
        }
    }
    if found {
        let mut slot: (String, Vec<(String, Vec<(String, String)>)>) = (String::new(), Vec::new());
        m.set_and_swap(p, &mut slot);
        let (name, mut inner) = slot;
        let ghost g2 = key_texts_view(inner@);
        let ghost g3 = sorted_get_or(g2, key@, e3);
        proof {
            lemma_put_at(l, ns@, sorted_put(g2, key@, sorted_put(g3, lang@, text@)), e2, p as int);
            assert(l[p as int].1 == g2);
            assert forall|j: int| 0 <= j < inner@.len() implies keys_sorted(#[trigger] key_texts_view(inner@)[j].1) by {
                assert(l[p as int].1[j] == key_texts_view(inner@)[j]);
            }
        }
        put_key(&mut inner, key, lang, text);
        let mut back = (name, inner);
        m.set_and_swap(p, &mut back);
        assert(tree_view(m@) =~= l.update(p as int, (ns@, sorted_put(g2, key@, sorted_put(g3, lang@, text@)))));
        proof {
            let r = tree_view(m@);
            assert forall|i: int| 0 <= i < r.len() implies keys_sorted(#[trigger] r[i].1) by {
                if i != p {
                    assert(r[i] == l[i]);
                }
            }
            assert forall|i: int, j: int| 0 <= i < r.len() && 0 <= j < r[i].1.len() implies keys_sorted(#[trigger] r[i].1[j].1) by {
                if i != p {
                    assert(r[i] == l[i]);
                } else {
                    assert(r[i].1 == key_texts_view(inner@));
                }
            }
        }
    } else {
        proof {
            lemma_put_at(l, ns@, sorted_put(e2, key@, sorted_put(e3, lang@, text@)), e2, p as int);
        }
        let mut inner: Vec<(String, Vec<(String, String)>)> = Vec::new();
        assert(key_texts_view(inner@) =~= e2);
        put_key(&mut inner, key, lang, text);
        m.insert(p, (String::from_str(ns), inner));
        assert(tree_view(m@) =~= l.insert(p as int, (ns@, sorted_put(e2, key@, sorted_put(e3, lang@, text@)))));
        proof {
            let r = tree_view(m@);
            assert forall|i: int| 0 <= i < r.len() implies keys_sorted(#[trigger] r[i].1) by {
                if i < p {
                    assert(r[i] == l[i]);
                } else if i > p {
                    assert(r[i] == l[i - 1]);
                }
            }
            assert forall|i: int, j: int| 0 <= i < r.len() && 0 <= j < r[i].1.len() implies keys_sorted(#[trigger] r[i].1[j].1) by {
                if i < p {
                    assert(r[i] == l[i]);
                } else if i > p {
                    assert(r[i] == l[i - 1]);
                } else {
                    assert(r[i].1 == key_texts_view(inner@));
                }
            }
        }
    }
}

proof fn lemma_break_suffix(s: Seq<char>, i: int)
    requires
        0 <= i <= s.len(),
        i + 1 < s.len() ==> !(s[i] == '*' && s[i + 1] == '/'),
        i < s.len(),
    ensures
        break_comment_ends(s.skip(i)) == seq![s[i]] + break_comment_ends(s.skip(i + 1)),
{
    let t = s.skip(i);
    assert(t.skip(1) =~= s.skip(i + 1));
    if t.len() < 2 {
        assert(s.skip(i + 1) =~= Seq::<char>::empty());
        assert(t =~= seq![s[i]]);
    }
}

/// A translation made fit for a doc comment: line breaks become spaces and `*/` becomes
/// `* /`.
pub fn doc_text_exec(s: &str) -> (r: String)
    ensures
        r@ == doc_text(s@),
{
    let v = crate::text::chars_of(s);
    let ghost u = crate::text::replace_char(s@, '\n', ' ');
    let mut w: Vec<char> = Vec::new();
    for i in 0..v.len()
        invariant
            v@ == s@,
            u == crate::text::replace_char(s@, '\n', ' '),
            w@ == u.take(i as int),
    {
        w.push(if v[i] == '\n' { ' ' } else { v[i] });
        assert(u.take(i + 1) =~= u.take(i as int).push(u[i as int]));
    }
    assert(u.take(v.len() as int) =~= u);
    let mut out: Vec<char> = Vec::new();
    let mut i: usize = 0;
    assert(u.skip(0) =~= u);
    while i < w.len()
        invariant
            w@ == u,
            i <= w.len(),
            out@ + break_comment_ends(u.skip(i as int)) == break_comment_ends(u),
        decreases w.len() - i,
    {
        if i + 1 < w.len() && w[i] == '*' && w[i + 1] == '/' {
            let ghost t = u.skip(i as int);
            assert(t[0] == '*' && t[1] == '/');
            assert(t.skip(2) =~= u.skip(i + 2));
            out.push('*');
            out.push(' ');
            out.push('/');
            assert(out@ + break_comment_ends(u.skip(i + 2)) =~= (out@.drop_last().drop_last().drop_last()) + (seq!['*', ' ', '/'] + break_comment_ends(u.skip(i + 2))));
            i = i + 2;
        } else {
            proof {
                lemma_break_suffix(u, i as int);
            }
            let ghost before = out@;
            out.push(w[i]);
            assert(out@ + break_comment_ends(u.skip(i + 1)) =~= before + (seq![u[i as int]] + break_comment_ends(u.skip(i + 1))));
            i = i + 1;
        }
    }
    assert(u.skip(w.len() as int) =~= Seq::<char>::empty());
    assert(out@ =~= break_comment_ends(u));
    crate::text::string_from_chars(&out)
}

fn value_text_exec(v: &I18nValue) -> (r: String)
    ensures
        r@ == value_text(*v),
{
    match v {
        I18nValue::Text(s) => doc_text_exec(s.as_str()),
        I18nValue::Json(s) => s.clone(),
    }
}

/// The translation tree of the namespaces' files: namespace, then key, then language, each
/// level sorted, a later file's text replacing an earlier one's.
pub fn build_i18n_tree(dirs: &Vec<I18nDir>) -> (r: Vec<(String, Vec<(String, Vec<(String, String)>)>)>)
    ensures
        tree_view(r@) == i18n_tree(dirs@),
        tree_sorted(tree_view(r@)),
{
    let mut m: Vec<(String, Vec<(String, Vec<(String, String)>)>)> = Vec::new();
    assert(tree_view(m@) =~= i18n_tree(dirs@.take(0)));
    let mut d: usize = 0;
    while d < dirs.len()
        invariant
            d <= dirs.len(),
            tree_view(m@) == i18n_tree(dirs@.take(d as int)),
            tree_sorted(tree_view(m@)),
        decreases dirs.len() - d,
    {
        let dir = &dirs[d];
        let ghost base = tree_view(m@);
        assert(dirs@.take(d + 1).drop_last() =~= dirs@.take(d as int));
        let mut f: usize = 0;
        while f < dir.files.len()
            invariant
                d < dirs.len(),
                *dir == dirs@[d as int],
                f <= dir.files.len(),
                tree_view(m@) == put_files(base, dir.ns@, dir.files@.take(f as int)),
                tree_sorted(tree_view(m@)),
            decreases dir.files.len() - f,
        {
            let file = &dir.files[f];
            let ghost fbase = tree_view(m@);
            assert(dir.files@.take(f + 1).drop_last() =~= dir.files@.take(f as int));
            let mut k: usize = 0;
            while k < file.entries.len()
                invariant
                    f < dir.files.len(),
                    *file == dir.files@[f as int],
                    k <= file.entries.len(),
                    tree_view(m@) == put_entries(fbase, dir.ns@, file.lang@, file.entries@.take(k as int)),
                    tree_sorted(tree_view(m@)),
                decreases file.entries.len() - k,
            {
                assert(file.entries@.take(k + 1).drop_last() =~= file.entries@.take(k as int));
                let text = value_text_exec(&file.entries[k].1);
                put_translation(&mut m, dir.ns.as_str(), file.entries[k].0.as_str(), file.lang.as_str(), text);
                k = k + 1;
            }
            assert(file.entries@.take(file.entries.len() as int) =~= file.entries@);
            f = f + 1;
        }
        assert(dir.files@.take(dir.files.len() as int) =~= dir.files@);
        d = d + 1;
    }
    assert(dirs@.take(dirs.len() as int) =~= dirs@);
    m
}

// ---------------------------------------------------------------------------------------
// The declarations file.
// ---------------------------------------------------------------------------------------

/// Whether language `j` of `trs` is `fb`, up to ASCII case.
pub open spec fn lang_pred(trs: LangTexts, fb: Seq<char>) -> spec_fn(int) -> bool {
    |j: int| crate::text::eq_ignore_ascii_case(trs[j].0, fb)
}

/// The language to show first: the most specific fallback, from the end of the chain, that
/// has a translation, matched up to ASCII case; of several matches the first in order.
pub open spec fn best_lang(fbs: Seq<Seq<char>>, trs: LangTexts) -> Option<int>
    decreases fbs.len(),
{
    if fbs.len() == 0 {
        None
    } else {
        match first_where(trs.len() as int, lang_pred(trs, fbs.last())) {
            Some(j) => Some(j),
            None => best_lang(fbs.drop_last(), trs),
        }
    }
}

/// One translation line of a key's doc comment.
pub open spec fn lang_line(lang: Seq<char>, text: Seq<char>) -> Seq<char> {
    "   * - **"@ + lang + "**: "@ + text + "\n"@
}

/// The first translation line, for the language shown first.
pub open spec fn best_line(lang: Seq<char>, text: Seq<char>) -> Seq<char> {
    "   * - 🚩 **"@ + lang + "**: "@ + text + "\n"@
}

/// The lines of the first `n` translations other than the one shown first.
pub open spec fn other_lines(trs: LangTexts, best: Option<int>, n: int) -> Seq<char>
    decreases n,
{
    if n <= 0 {
        Seq::<char>::empty()
    } else if best == Some(n - 1) {
        other_lines(trs, best, n - 1)
    } else {
        other_lines(trs, best, n - 1) + lang_line(trs[n - 1].0, trs[n - 1].1)
    }
}

/// The doc comment and declaration of one key.
pub open spec fn key_decl(key: Seq<char>, trs: LangTexts, fbs: Seq<Seq<char>>) -> Seq<char> {
    let b = best_lang(fbs, trs);
    "  /**\n"@ + (match b {
        Some(i) => best_line(trs[i].0, trs[i].1),
        None => Seq::<char>::empty(),
    }) + other_lines(trs, b, trs.len() as int) + "   */\n"@ + "  export const "@ + key + ": string;\n"@
}

/// The declarations of the first `n` keys.
pub open spec fn key_decls(keys: KeyTexts, fbs: Seq<Seq<char>>, n: int) -> Seq<char>
    decreases n,
{
    if n <= 0 {
        Seq::<char>::empty()
    } else {
        key_decls(keys, fbs, n - 1) + key_decl(keys[n - 1].0, keys[n - 1].1, fbs)
    }
}

/// The module block of one namespace; none for a namespace without keys.
pub open spec fn ns_decl(ns: Seq<char>, keys: KeyTexts, fbs: Seq<Seq<char>>) -> Seq<char> {
    if keys.len() == 0 {
        Seq::<char>::empty()
    } else {
        "declare module \""@ + module_id(ns) + "\" {\n"@ + key_decls(keys, fbs, keys.len() as int) + "}\n\n"@
    }
}

/// The module blocks of the first `n` namespaces.
pub open spec fn ns_decls(m: I18nTree, fbs: Seq<Seq<char>>, n: int) -> Seq<char>
    decreases n,
{
    if n <= 0 {
        Seq::<char>::empty()
    } else {
        ns_decls(m, fbs, n - 1) + ns_decl(m[n - 1].0, m[n - 1].1, fbs)
    }
}

/// The declarations file for a translation tree and a fallback chain.
pub open spec fn declarations(m: I18nTree, fbs: Seq<Seq<char>>) -> Seq<char> {
    if m.len() == 0 {
        "// No i18n keys found.\n"@
    } else {
        ns_decls(m, fbs, m.len() as int)
    }
}

/// The keys without a translation in any language of the chain, among the first `n` keys of
/// a namespace: namespace, key and the languages it has.
pub open spec fn missing_in(ns: Seq<char>, keys: KeyTexts, fbs: Seq<Seq<char>>, n: int) -> Seq<(Seq<char>, Seq<char>, Seq<Seq<char>>)>
    decreases n,
{
    if n <= 0 {
        Seq::<(Seq<char>, Seq<char>, Seq<Seq<char>>)>::empty()
    } else if best_lang(fbs, keys[n - 1].1) is None {
        missing_in(ns, keys, fbs, n - 1).push((ns, keys[n - 1].0, firsts(keys[n - 1].1)))
    } else {
        missing_in(ns, keys, fbs, n - 1)
    }
}

/// The keys without a translation in any language of the chain, namespace after namespace.
pub open spec fn missing_keys(m: I18nTree, fbs: Seq<Seq<char>>, n: int) -> Seq<(Seq<char>, Seq<char>, Seq<Seq<char>>)>
    decreases n,
{
    if n <= 0 {
        Seq::<(Seq<char>, Seq<char>, Seq<Seq<char>>)>::empty()
    } else {
        missing_keys(m, fbs, n - 1) + missing_in(m[n - 1].0, m[n - 1].1, fbs, m[n - 1].1.len() as int)
    }
}

fn find_lang(trs: &Vec<(String, String)>, fb: &str) -> (r: Option<usize>)
    ensures
        match r {
            Some(j) => first_where(trs@.len() as int, lang_pred(pairs_view(trs@), fb@)) == Some(j as int),
            None => first_where(trs@.len() as int, lang_pred(pairs_view(trs@), fb@)) is None,
        },
{
    let ghost p = lang_pred(pairs_view(trs@), fb@);
    let mut j: usize = 0;
    while j < trs.len()
        invariant
            p == lang_pred(pairs_view(trs@), fb@),
            j <= trs.len(),
            forall|i: int| 0 <= i < j ==> !#[trigger] p(i),
        decreases trs.len() - j,
    {
        if crate::text::str_eq_ignore_ascii_case(trs[j].0.as_str(), fb) {
            proof {
                assert(pairs_view(trs@)[j as int].0 == trs@[j as int].0@);
                crate::seqs::lemma_first_where_found(trs@.len() as int, p, j as int);
            }
            return Some(j);
        }
        assert(pairs_view(trs@)[j as int].0 == trs@[j as int].0@);
        j = j + 1;
    }
    proof {
        crate::seqs::lemma_first_where_none(trs@.len() as int, p);
    }
    None
}

fn best_lang_exec(fbs: &Vec<String>, trs: &Vec<(String, String)>) -> (r: Option<usize>)
    ensures
        match r {
            Some(j) => best_lang(strings_view(fbs@), pairs_view(trs@)) == Some(j as int) && j < trs@.len(),
            None => best_lang(strings_view(fbs@), pairs_view(trs@)) is None,
        },
{
    let ghost fv = strings_view(fbs@);
    let ghost tv = pairs_view(trs@);
    let mut n = fbs.len();
    assert(fv.take(n as int) =~= fv);
    while n > 0
        invariant
            n <= fbs.len(),
            fv == strings_view(fbs@),
            tv == pairs_view(trs@),
            best_lang(fv, tv) == best_lang(fv.take(n as int), tv),
        decreases n,
    {
        let ghost fn_ = fv.take(n as int);
        assert(fn_.last() == fbs@[n - 1]@);
        assert(fn_.drop_last() =~= fv.take(n - 1));
        match find_lang(trs, fbs[n - 1].as_str()) {
            Some(j) => {
                proof {
                    crate::seqs::lemma_first_where_some(trs@.len() as int, lang_pred(tv, fbs@[n - 1]@));
                }
                return Some(j);
            },
            None => {},
        }
        n = n - 1;
    }
    assert(fv.take(0) =~= Seq::<Seq<char>>::empty());
    None
}

/// The declarations file for a translation tree, and the keys it has no translation for.
pub struct I18nDeclarations {
    /// The text of `i18n.d.ts`.
    pub text: String,
    /// How many namespaces the tree has.
    pub namespaces: usize,
    /// Namespace, key and available languages of each key without a translation in the chain.
    pub missing: Vec<(String, String, Vec<String>)>,
}

/// The views of missing-key reports.
pub open spec fn missing_view(v: Seq<(String, String, Vec<String>)>) -> Seq<(Seq<char>, Seq<char>, Seq<Seq<char>>)> {
    v.map_values(|x: (String, String, Vec<String>)| (x.0@, x.1@, strings_view(x.2@)))
}

fn render_key(s: &mut String, key: &String, trs: &Vec<(String, String)>, fbs: &Vec<String>) -> (b: Option<usize>)
    ensures
        final(s)@ == old(s)@ + key_decl(key@, pairs_view(trs@), strings_view(fbs@)),
        match b {
            Some(j) => best_lang(strings_view(fbs@), pairs_view(trs@)) == Some(j as int),
            None => best_lang(strings_view(fbs@), pairs_view(trs@)) is None,
        },
{
    let ghost s0 = s@;
    let ghost tv = pairs_view(trs@);
    let b = best_lang_exec(fbs, trs);
    push_str(s, "  /**\n");
    let ghost s1 = s@;
    match b {
        Some(j) => {
            push_str(s, "   * - 🚩 **");
            push_str(s, trs[j].0.as_str());
            push_str(s, "**: ");
            push_str(s, trs[j].1.as_str());
            push_str(s, "\n");
            assert(s@ =~= s1 + best_line(tv[j as int].0, tv[j as int].1));
        },
        None => {},
    }
    let ghost s2 = s@;
    let mut i: usize = 0;
    while i < trs.len()
        invariant
            tv == pairs_view(trs@),
            i <= trs.len(),
            s@ == s2 + other_lines(tv, match b { Some(j) => Some(j as int), None => None }, i as int),
        decreases trs.len() - i,
    {
        let skip = match b {
            Some(j) => j == i,
            None => false,
        };
        if !skip {
            let ghost before = s@;
            push_str(s, "   * - **");
            push_str(s, trs[i].0.as_str());
            push_str(s, "**: ");
            push_str(s, trs[i].1.as_str());
            push_str(s, "\n");
            assert(s@ =~= before + lang_line(tv[i as int].0, tv[i as int].1));
        }
        i = i + 1;
    }
    push_str(s, "   */\n");
    push_str(s, "  export const ");
    push_str(s, key.as_str());
    push_str(s, ": string;\n");
    assert(s@ =~= s0 + key_decl(key@, tv, strings_view(fbs@)));
    b
}

/// The declarations file `i18n.d.ts` for a translation tree: one `declare module` block per
/// namespace with keys, each key with a doc comment listing its translations, the one of the
/// most specific language of the fallback chain first.
pub fn i18n_declarations(tree: &Vec<(String, Vec<(String, Vec<(String, String)>)>)>, fbs: &Vec<String>) -> (r: I18nDeclarations)
    ensures
        r.text@ == declarations(tree_view(tree@), strings_view(fbs@)),
        r.namespaces == tree@.len(),
        missing_view(r.missing@) == missing_keys(tree_view(tree@), strings_view(fbs@), tree@.len() as int),
{
    let ghost m = tree_view(tree@);
    let ghost fv = strings_view(fbs@);
    let mut s = String::new();
    let mut missing: Vec<(String, String, Vec<String>)> = Vec::new();
    if tree.len() == 0 {
        s = String::from_str("// No i18n keys found.\n");
        return I18nDeclarations { text: s, namespaces: 0, missing };
    }
    let mut n: usize = 0;
    while n < tree.len()
        invariant
            m == tree_view(tree@),
            fv == strings_view(fbs@),
            n <= tree.len(),
            s@ == ns_decls(m, fv, n as int),
            missing_view(missing@) == missing_keys(m, fv, n as int),
        decreases tree.len() - n,
    {
        let ns = &tree[n].0;
        let keys = &tree[n].1;
        let ghost kv = key_texts_view(keys@);
        assert(m[n as int] == (ns@, kv));
        let ghost s_before = s@;
        let ghost miss_before = missing_view(missing@);
        if keys.len() > 0 {
            push_str(&mut s, "declare module \"");
            push_str(&mut s, "virtual:i18n/");
            push_str(&mut s, ns.as_str());
            push_str(&mut s, "\" {\n");
            let ghost s_head = s@;
            assert(s_head =~= s_before + ("declare module \""@ + module_id(ns@) + "\" {\n"@));
            let mut k: usize = 0;
            while k < keys.len()
                invariant
                    m == tree_view(tree@),
                    fv == strings_view(fbs@),
                    n < tree.len(),
                    *keys == tree@[n as int].1,
                    *ns == tree@[n as int].0,
                    kv == key_texts_view(keys@),
                    k <= keys.len(),
                    s@ == s_head + key_decls(kv, fv, k as int),
                    missing_view(missing@) == miss_before + missing_in(ns@, kv, fv, k as int),
                decreases keys.len() - k,
            {
                assert(kv[k as int] == (keys@[k as int].0@, pairs_view(keys@[k as int].1@)));
                let ghost before_key = s@;
                let b = render_key(&mut s, &keys[k].0, &keys[k].1, fbs);
                match b {
                    None => {
                        let mut langs: Vec<String> = Vec::new();
                        let trs = &keys[k].1;
                        for j in 0..trs.len()
                            invariant
                                strings_view(langs@) == firsts(pairs_view(trs@.take(j as int))),
                        {
                            langs.push(trs[j].0.clone());
                            assert(firsts(pairs_view(trs@.take(j + 1))) =~= firsts(pairs_view(trs@.take(j as int))).push(trs@[j as int].0@));
                            assert(strings_view(langs@) =~= strings_view(langs@.drop_last()).push(langs@.last()@));
                        }
                        assert(trs@.take(trs.len() as int) =~= trs@);
                        let ghost mprev = missing_view(missing@);
                        missing.push((ns.clone(), keys[k].0.clone(), langs));
                        assert(missing_view(missing@) =~= mprev.push((ns@, keys@[k as int].0@, strings_view(langs@))));
                    },
                    Some(_) => {},
                }
                k = k + 1;
            }
            push_str(&mut s, "}\n\n");
            assert(s@ =~= s_before + ns_decl(ns@, kv, fv));
        } else {
            assert(kv.len() == 0);
            assert(s@ =~= s_before + ns_decl(ns@, kv, fv));
        }
        assert(missing_in(ns@, kv, fv, kv.len() as int) == missing_in(m[n as int].0, m[n as int].1, fv, m[n as int].1.len() as int));
        n = n + 1;
    }
    I18nDeclarations { text: s, namespaces: tree.len(), missing }
}

/// Builds the i18n declarations file from the translation files of the namespaces, for the
/// preferred language `lang`.
pub fn run_i18n_gen(dirs: &Vec<I18nDir>, lang: &str) -> (r: I18nDeclarations)
    ensures
        r.text@ == declarations(
            i18n_tree(dirs@),
            crate::icu_utils::fallback_chain(lang@, crate::icu_utils::icu_fallback_sequence(lang@)),
        ),
        r.namespaces == i18n_tree(dirs@).len(),
        missing_view(r.missing@) == missing_keys(
            i18n_tree(dirs@),
            crate::icu_utils::fallback_chain(lang@, crate::icu_utils::icu_fallback_sequence(lang@)),
            i18n_tree(dirs@).len() as int,
        ),
{
    let fbs = crate::icu_utils::get_fallback_chain(lang);
    let tree = build_i18n_tree(dirs);
    i18n_declarations(&tree, &fbs)
}

/// Reading a key back after putting it gives what was put.
pub proof fn lemma_get_after_put<V>(l: Seq<(Seq<char>, V)>, k: Seq<char>, v: V, d: V)
    ensures
        sorted_get_or(sorted_put(l, k, v), k, d) == v,
    decreases l.len(),
{
    if l.len() > 0 && l[0].0 != k && !seq_lt(k, l[0].0) {
        let r = sorted_put(l, k, v);
        assert(r.drop_first() =~= sorted_put(l.drop_first(), k, v));
        lemma_get_after_put(l.drop_first(), k, v, d);
    }
}

/// Putting one key leaves every other key as it was.
pub proof fn lemma_get_other_after_put<V>(l: Seq<(Seq<char>, V)>, k: Seq<char>, v: V, k2: Seq<char>, d: V)
    requires
        k2 != k,
    ensures
        sorted_get_or(sorted_put(l, k, v), k2, d) == sorted_get_or(l, k2, d),
    decreases l.len(),
{
    let r = sorted_put(l, k, v);
    if l.len() == 0 {
        assert(r.drop_first() =~= Seq::<(Seq<char>, V)>::empty());
        assert(sorted_get_or(r, k2, d) == sorted_get_or(r.drop_first(), k2, d));
    } else if l[0].0 == k {
        assert(r.drop_first() =~= l.drop_first());
        assert(sorted_get_or(r, k2, d) == sorted_get_or(r.drop_first(), k2, d));
    } else if seq_lt(k, l[0].0) {
        assert(r.drop_first() =~= l);
        assert(sorted_get_or(r, k2, d) == sorted_get_or(r.drop_first(), k2, d));
    } else {
        assert(r.drop_first() =~= sorted_put(l.drop_first(), k, v));
        if l[0].0 != k2 {
            lemma_get_other_after_put(l.drop_first(), k, v, k2, d);
        }
    }
}

/// After a translation is put into the tree, the tree holds it under its namespace, key and
/// language.
pub proof fn lemma_tree_holds_put(m: I18nTree, ns: Seq<char>, key: Seq<char>, lang: Seq<char>, text: Seq<char>)
    ensures
        ({
            let e2 = Seq::<(Seq<char>, LangTexts)>::empty();
            let e3 = Seq::<(Seq<char>, Seq<char>)>::empty();
            let r = put3(m, ns, key, lang, text);
            sorted_get_or(sorted_get_or(sorted_get_or(r, ns, e2), key, e3), lang, Seq::<char>::empty()) == text
        }),
{
    let e2 = Seq::<(Seq<char>, LangTexts)>::empty();
    let e3 = Seq::<(Seq<char>, Seq<char>)>::empty();
    let g2 = sorted_get_or(m, ns, e2);
    let g3 = sorted_get_or(g2, key, e3);
    lemma_get_after_put(m, ns, sorted_put(g2, key, sorted_put(g3, lang, text)), e2);
    lemma_get_after_put(g2, key, sorted_put(g3, lang, text), e3);
    lemma_get_after_put(g3, lang, text, Seq::<char>::empty());
}

/// Whether file `i` has the stem `fb`, up to ASCII case.
pub open spec fn stem_pred(files: Seq<(Seq<char>, Seq<char>)>, fb: Seq<char>) -> spec_fn(int) -> bool {
    |i: int| crate::text::eq_ignore_ascii_case(files[i].0, fb)
}

/// For each language of the chain, in order, the first file whose stem is that language up
/// to ASCII case, where there is one.
pub open spec fn matching_files(files: Seq<(Seq<char>, Seq<char>)>, fbs: Seq<Seq<char>>) -> Seq<(Seq<char>, Seq<char>)>
    decreases fbs.len(),
{
    if fbs.len() == 0 {
        Seq::<(Seq<char>, Seq<char>)>::empty()
    } else {
        let prev = matching_files(files, fbs.drop_last());
        match first_where(files.len() as int, stem_pred(files, fbs.last())) {
            Some(i) => prev.push(files[i]),
            None => prev,
        }
    }
}

/// The translation files (stem and path, in directory order) that serve the fallback chain:
/// for each language of the chain, in order, the first file whose stem is that language up
/// to ASCII case.
pub fn get_matching_i18n_files(files: &Vec<(String, String)>, fallbacks: &Vec<String>) -> (r: Vec<(String, String)>)
    ensures
        pairs_view(r@) == matching_files(pairs_view(files@), strings_view(fallbacks@)),
{
    let ghost fv = strings_view(fallbacks@);
    let ghost pv = pairs_view(files@);
    let mut r: Vec<(String, String)> = Vec::new();
    let mut n: usize = 0;
    while n < fallbacks.len()
        invariant
            n <= fallbacks.len(),
            fv == strings_view(fallbacks@),
            pv == pairs_view(files@),
            pairs_view(r@) == matching_files(pv, fv.take(n as int)),
        decreases fallbacks.len() - n,
    {
        assert(fv.take(n + 1).drop_last() =~= fv.take(n as int));
        assert(fv.take(n + 1).last() == fallbacks@[n as int]@);
        let found = find_lang(files, fallbacks[n].as_str());
        proof {
            assert(lang_pred(pv, fallbacks@[n as int]@) =~= stem_pred(pv, fallbacks@[n as int]@));
            crate::seqs::lemma_first_where_some(files@.len() as int, lang_pred(pv, fallbacks@[n as int]@));
        }
        match found {
            Some(i) => {
                let ghost prev = pairs_view(r@);
                r.push((files[i].0.clone(), files[i].1.clone()));
                assert(pairs_view(r@) =~= prev.push(pv[i as int]));
            },
            None => {},
        }
        n = n + 1;
    }
    assert(fv.take(fallbacks.len() as int) =~= fv);
    r
}

/// The translations of some files merged in order, a later file's text for a key replacing an
/// earlier one's; keys sorted.
pub open spec fn merged_texts(files: Seq<Seq<(Seq<char>, Seq<char>)>>) -> LangTexts
    decreases files.len(),
{
    if files.len() == 0 {
        Seq::<(Seq<char>, Seq<char>)>::empty()
    } else {
        put_all(merged_texts(files.drop_last()), files.last())
    }
}

/// `m` with each entry of `es` put in, in order.
pub open spec fn put_all(m: LangTexts, es: Seq<(Seq<char>, Seq<char>)>) -> LangTexts
    decreases es.len(),
{
    if es.len() == 0 {
        m
    } else {
        sorted_put(put_all(m, es.drop_last()), es.last().0, es.last().1)
    }
}

/// The text of the last entry of `es` with key `k`, or `d` where none has it.
pub open spec fn text_in(es: Seq<(Seq<char>, Seq<char>)>, k: Seq<char>, d: Seq<char>) -> Seq<char>
    decreases es.len(),
{
    if es.len() == 0 {
        d
    } else if es.last().0 == k {
        es.last().1
    } else {
        text_in(es.drop_last(), k, d)
    }
}

/// The text that the last file having key `k` gives it, or `d` where no file has it.
pub open spec fn last_file_text(files: Seq<Seq<(Seq<char>, Seq<char>)>>, k: Seq<char>, d: Seq<char>) -> Seq<char>
    decreases files.len(),
{
    if files.len() == 0 {
        d
    } else {
        text_in(files.last(), k, last_file_text(files.drop_last(), k, d))
    }
}

proof fn lemma_put_all_get(m: LangTexts, es: Seq<(Seq<char>, Seq<char>)>, k: Seq<char>, d: Seq<char>)
    ensures
        sorted_get_or(put_all(m, es), k, d) == text_in(es, k, sorted_get_or(m, k, d)),
    decreases es.len(),
{
    if es.len() > 0 {
        lemma_put_all_get(m, es.drop_last(), k, d);
        let m1 = put_all(m, es.drop_last());
        if es.last().0 == k {
            lemma_get_after_put(m1, k, es.last().1, d);
        } else {
            lemma_get_other_after_put(m1, es.last().0, es.last().1, k, d);
        }
    }
}

/// Merged translations give each key the text of the last file that has it (for files in
/// fallback-chain order, the most specific language), and `d` to a key that no file has.
pub proof fn lemma_last_file_wins(files: Seq<Seq<(Seq<char>, Seq<char>)>>, k: Seq<char>, d: Seq<char>)
    ensures
        sorted_get_or(merged_texts(files), k, d) == last_file_text(files, k, d),
    decreases files.len(),
{
    if files.len() > 0 {
        lemma_last_file_wins(files.drop_last(), k, d);
        lemma_put_all_get(merged_texts(files.drop_last()), files.last(), k, d);
    }
}

/// The views of several files' entries.
pub open spec fn files_view(v: Seq<Vec<(String, String)>>) -> Seq<Seq<(Seq<char>, Seq<char>)>> {
    v.map_values(|f: Vec<(String, String)>| pairs_view(f@))
}

/// The translations of some files, in order, merged: a later file's text for a key replaces
/// an earlier one's; keys sorted.
pub fn merge_translations(files: &Vec<Vec<(String, String)>>) -> (r: Vec<(String, String)>)
    ensures
        pairs_view(r@) == merged_texts(files_view(files@)),
        keys_sorted(pairs_view(r@)),
{
    let ghost fv = files_view(files@);
    let mut r: Vec<(String, String)> = Vec::new();
    assert(pairs_view(r@) =~= merged_texts(fv.take(0)));
    let mut i: usize = 0;
    while i < files.len()
        invariant
            i <= files.len(),
            fv == files_view(files@),
            pairs_view(r@) == merged_texts(fv.take(i as int)),
            keys_sorted(pairs_view(r@)),
        decreases files.len() - i,
    {
        let f = &files[i];
        let ghost base = pairs_view(r@);
        assert(fv.take(i + 1).drop_last() =~= fv.take(i as int));
        assert(fv.take(i + 1).last() == pairs_view(f@));
        let mut j: usize = 0;
        while j < f.len()
            invariant
                i < files.len(),
                *f == files@[i as int],
                j <= f.len(),
                pairs_view(r@) == put_all(base, pairs_view(f@).take(j as int)),
                keys_sorted(pairs_view(r@)),
            decreases f.len() - j,
        {
            assert(pairs_view(f@).take(j + 1).drop_last() =~= pairs_view(f@).take(j as int));
            assert(pairs_view(f@).take(j + 1).last() == (f@[j as int].0@, f@[j as int].1@));
            put_lang(&mut r, f[j].0.as_str(), f[j].1.clone());
            j = j + 1;
        }
        assert(pairs_view(f@).take(f.len() as int) =~= pairs_view(f@));
        i = i + 1;
    }
    assert(fv.take(files.len() as int) =~= fv);
    r
}

/// A subdirectory of the completions directory: its name, its path, and whether it holds an
/// `i18n` directory.
pub struct SubDir {
    pub name: String,
    pub path: String,
    pub has_i18n: bool,
}

/// Whether a subdirectory is a namespace with translations.
pub open spec fn is_i18n_ns() -> spec_fn(SubDir) -> bool {
    |d: SubDir| d.has_i18n && d.name@ != "i18n"@
}

/// A namespace and its translations directory.
pub open spec fn ns_entry() -> spec_fn(SubDir) -> (Seq<char>, Seq<char>) {
    |d: SubDir| (d.name@, crate::paths::join_path(d.path@, "i18n"@))
}

/// The namespaces among some subdirectories, sorted by name: every one that holds an `i18n`
/// directory, except one itself named `i18n`, with the path of that directory.
pub open spec fn i18n_namespaces(dirs: Seq<SubDir>) -> Seq<(Seq<char>, Seq<char>)> {
    permute(dirs, sort_order(dirs.map_values(|d: SubDir| d.name@))).filter(is_i18n_ns()).map_values(ns_entry())
}

/// The translation namespaces of the completions directory, given its subdirectories:
/// sorted by name, those that hold an `i18n` directory (other than one named `i18n`), each with
/// the path of that directory.
pub fn scan_i18n_dirs(dirs: &Vec<SubDir>) -> (r: Vec<(String, String)>)
    ensures
        pairs_view(r@) == i18n_namespaces(dirs@),
{
    let mut names: Vec<String> = Vec::new();
    for i in 0..dirs.len()
        invariant
            strings_view(names@) == dirs@.take(i as int).map_values(|d: SubDir| d.name@),
    {
        names.push(dirs[i].name.clone());
        assert(dirs@.take(i + 1).map_values(|d: SubDir| d.name@) =~= dirs@.take(i as int).map_values(
            |d: SubDir| d.name@,
        ).push(dirs@[i as int].name@));
        assert(strings_view(names@) =~= strings_view(names@.drop_last()).push(names@.last()@));
    }
    assert(dirs@.take(dirs.len() as int) =~= dirs@);
    let order = sorted_order(&names);
    let ghost ord = idx_view(order@);
    let ghost sorted = permute(dirs@, ord);
    let ghost keep = is_i18n_ns();
    let ghost conv = ns_entry();
    let mut out: Vec<(String, String)> = Vec::new();
    let mut k: usize = 0;
    proof {
        reveal_strlit("i18n");
    }
    while k < order.len()
        invariant
            ord == idx_view(order@),
            is_sort_order(dirs@.map_values(|d: SubDir| d.name@), ord),
            sorted == permute(dirs@, ord),
            keep == is_i18n_ns(),
            conv == ns_entry(),
            k <= order.len(),
            pairs_view(out@) == sorted.take(k as int).filter(keep).map_values(conv),
        decreases order.len() - k,
    {
        assert(ord[k as int] == order@[k as int] as int);
        let x = order[k];
        let d = &dirs[x];
        let ghost prev = pairs_view(out@);
        let ghost t1 = sorted.take(k + 1);
        let ghost f0 = sorted.take(k as int).filter(keep);
        assert(t1.drop_last() =~= sorted.take(k as int));
        assert(t1.last() == dirs@[x as int]);
        if d.has_i18n && !crate::text::str_eq(d.name.as_str(), "i18n") {
            let p = crate::paths::join(d.path.as_str(), "i18n");
            out.push((d.name.clone(), p));
            assert(keep(t1.last()));
            assert(t1.filter(keep) == f0.push(t1.last())) by {
                reveal(Seq::filter);
            }
            assert(f0.push(t1.last()).map_values(conv) =~= f0.map_values(conv).push(conv(t1.last())));
            assert(pairs_view(out@) =~= prev.push(conv(t1.last())));
        } else {
            assert(!keep(t1.last()));
            assert(t1.filter(keep) == f0) by {
                reveal(Seq::filter);
            }
        }
        k = k + 1;
    }
    assert(sorted.take(order.len() as int) =~= sorted);
    out
}

} // verus!
