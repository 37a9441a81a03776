use vstd::prelude::*;
use crate::cache::{CommandNode, CompletionCache, lookup_bytecode, index_pred, copy_bytes};
use crate::order::{sorted_order, sort_order, is_sort_order, permute, key_before, lists, idx_view};
use crate::seqs::{first_where, lemma_first_where_found, lemma_first_where_none, lemma_first_where_some, lemma_first_where_agree};
use crate::text::strings_view;

verus! {

/// One compiled dynamic module: its bytecode and the ids of the functions it defines.
pub struct DynamicModule {
    pub bytecode: Vec<u8>,
    pub func_ids: Vec<String>,
}

/// Mathematical value of a [`DynamicModule`].
pub open spec fn module_view(m: DynamicModule) -> (Seq<u8>, Seq<Seq<char>>) {
    (m.bytecode@, strings_view(m.func_ids@))
}

/// The views of a list of modules.
pub open spec fn modules_view(ms: Seq<DynamicModule>) -> Seq<(Seq<u8>, Seq<Seq<char>>)> {
    ms.map_values(|m: DynamicModule| module_view(m))
}

/// The index entries of the modules, module after module: each function id with the
/// position of its module.
pub open spec fn index_entries(ms: Seq<(Seq<u8>, Seq<Seq<char>>)>) -> Seq<(Seq<char>, u32)>
    decreases ms.len(),
{
    if ms.len() == 0 {
        Seq::<(Seq<char>, u32)>::empty()
    } else {
        index_entries(ms.drop_last()) + ms.last().1.map_values(|f: Seq<char>| (f, (ms.len() - 1) as u32))
    }
}

/// The function ids of index entries.
pub open spec fn entry_keys(e: Seq<(Seq<char>, u32)>) -> Seq<Seq<char>> {
    e.map_values(|p: (Seq<char>, u32)| p.0)
}

/// The index of the modules: their entries, stably sorted by function id.
#[verifier::opaque]
pub open spec fn dyn_index_of(ms: Seq<(Seq<u8>, Seq<Seq<char>>)>) -> Seq<(Seq<char>, u32)> {
    permute(index_entries(ms), sort_order(entry_keys(index_entries(ms))))
}

/// The views of index entries.
pub open spec fn index_view(e: Seq<(String, u32)>) -> Seq<(Seq<char>, u32)> {
    e.map_values(|p: (String, u32)| (p.0@, p.1))
}

fn collect_entries(ms: &Vec<DynamicModule>) -> (r: Vec<(String, u32)>)
    ensures
        index_view(r@) == index_entries(modules_view(ms@)),
{
    let mut r: Vec<(String, u32)> = Vec::new();
    let mut i: usize = 0;
    while i < ms.len()
        invariant
            i <= ms.len(),
            index_view(r@) == index_entries(modules_view(ms@).take(i as int)),
        decreases ms.len() - i,
    {
        let ghost before = index_view(r@);
        let ghost mv = modules_view(ms@).take(i + 1);
        assert(mv.drop_last() =~= modules_view(ms@).take(i as int));
        assert(mv.last() == module_view(ms@[i as int]));
        let ids = &ms[i].func_ids;
        let mut j: usize = 0;
        while j < ids.len()
            invariant
                i < ms.len(),
                *ids == ms@[i as int].func_ids,
                j <= ids.len(),
                index_view(r@) == before + strings_view(ids@).take(j as int).map_values(
                    |f: Seq<char>| (f, i as u32),
                ),
            decreases ids.len() - j,
        {
            let ghost prev = index_view(r@);
            r.push((ids[j].clone(), i as u32));
            assert(strings_view(ids@).take(j + 1) =~= strings_view(ids@).take(j as int).push(ids@[j as int]@));
            assert(index_view(r@) =~= prev.push((ids@[j as int]@, i as u32)));
            assert(before + strings_view(ids@).take(j + 1).map_values(|f: Seq<char>| (f, i as u32)) =~= (before
                + strings_view(ids@).take(j as int).map_values(|f: Seq<char>| (f, i as u32))).push(
                (ids@[j as int]@, i as u32),
            ));
            j = j + 1;
        }
        assert(strings_view(ids@).take(ids.len() as int) =~= strings_view(ids@));
        assert(((i + 1) - 1) as u32 == i as u32);
        i = i + 1;
    }
    assert(modules_view(ms@).take(ms.len() as int) =~= modules_view(ms@));
    r
}

fn entry_names(e: &Vec<(String, u32)>) -> (r: Vec<String>)
    ensures
        strings_view(r@) == entry_keys(index_view(e@)),
{
    let mut r: Vec<String> = Vec::new();
    for i in 0..e.len()
        invariant
            strings_view(r@) == entry_keys(index_view(e@.take(i as int))),
    {
        r.push(e[i].0.clone());
        assert(entry_keys(index_view(e@.take(i + 1))) =~= entry_keys(index_view(e@.take(i as int))).push(
            e@[i as int].0@,
        ));
        assert(strings_view(r@) =~= strings_view(r@.drop_last()).push(r@.last()@));
    }
    assert(e@.take(e.len() as int) =~= e@);
    r
}

fn sorted_entries(e: &Vec<(String, u32)>) -> (r: Vec<(String, u32)>)
    ensures
        index_view(r@) == permute(index_view(e@), sort_order(entry_keys(index_view(e@)))),
{
    let names = entry_names(e);
    let order = sorted_order(&names);
    let ghost ord = idx_view(order@);
    let mut r: Vec<(String, u32)> = Vec::new();
    for k in 0..order.len()
        invariant
            ord == idx_view(order@),
            is_sort_order(entry_keys(index_view(e@)), ord),
            index_view(r@) =~= permute(index_view(e@), ord).take(k as int),
    {
        assert(ord[k as int] == order@[k as int] as int);
        let x = order[k];
        assert(x < e.len());
        let ghost prev = index_view(r@);
        let name = e[x].0.clone();
        r.push((name, e[x].1));
        assert(index_view(r@) =~= prev.push((e@[x as int].0@, e@[x as int].1)));
        assert(permute(index_view(e@), ord)[k as int] == index_view(e@)[x as int]);
        assert(permute(index_view(e@), ord).take(k + 1) =~= permute(index_view(e@), ord).take(k as int).push(
            index_view(e@)[x as int],
        ));
    }
    r
}

/// The completion cache for a merged command tree and the compiled dynamic modules, in scan
/// order: the modules' bytecode in that order, and an index from each function id to the
/// position of its module, stably sorted by id.
pub fn assemble_cache(root: CommandNode, modules: &Vec<DynamicModule>) -> (r: CompletionCache)
    ensures
        r.root == root,
        r.bytecodes@.map_values(|b: Vec<u8>| b@) == modules_view(modules@).map_values(
            |m: (Seq<u8>, Seq<Seq<char>>)| m.0,
        ),
        index_view(r.dyn_index@) == dyn_index_of(modules_view(modules@)),
{
    let mut bytecodes: Vec<Vec<u8>> = Vec::new();
    for i in 0..modules.len()
        invariant
            bytecodes@.map_values(|b: Vec<u8>| b@) =~= modules_view(modules@).map_values(
                |m: (Seq<u8>, Seq<Seq<char>>)| m.0,
            ).take(i as int),
    {
        let ghost prev = bytecodes@.map_values(|b: Vec<u8>| b@);
        bytecodes.push(copy_bytes(&modules[i].bytecode));
        assert(bytecodes@.map_values(|b: Vec<u8>| b@) =~= prev.push(modules@[i as int].bytecode@));
        assert(modules_view(modules@).map_values(|m: (Seq<u8>, Seq<Seq<char>>)| m.0)[i as int]
            == modules@[i as int].bytecode@);
    }
    let entries = collect_entries(modules);
    let dyn_index = sorted_entries(&entries);
    assert(index_view(dyn_index@) == dyn_index_of(modules_view(modules@))) by {
        reveal(dyn_index_of);
    }
    CompletionCache { root, bytecodes, dyn_index }
}

/// Whether module `i` defines function `f`.
pub open spec fn defines_pred(ms: Seq<(Seq<u8>, Seq<Seq<char>>)>, f: Seq<char>) -> spec_fn(int) -> bool {
    |i: int| ms[i].1.contains(f)
}

/// The first module that defines function `f`.
pub open spec fn first_defining(ms: Seq<(Seq<u8>, Seq<Seq<char>>)>, f: Seq<char>) -> Option<int> {
    first_where(ms.len() as int, defines_pred(ms, f))
}

proof fn lemma_entries_facts(ms: Seq<(Seq<u8>, Seq<Seq<char>>)>)
    requires
        ms.len() <= u32::MAX as int + 1,
    ensures
        forall|x: int| 0 <= x < index_entries(ms).len() ==> (#[trigger] index_entries(ms)[x]).1 < ms.len()
            && ms[index_entries(ms)[x].1 as int].1.contains(index_entries(ms)[x].0),
        forall|x: int, y: int| 0 <= x < y < index_entries(ms).len() ==> (#[trigger] index_entries(ms)[x]).1
            <= (#[trigger] index_entries(ms)[y]).1,
        forall|i: int, f: Seq<char>| 0 <= i < ms.len() && #[trigger] ms[i].1.contains(f) ==> exists|x: int|
            0 <= x < index_entries(ms).len() && #[trigger] index_entries(ms)[x] == (f, i as u32),
    decreases ms.len(),
{
    if ms.len() > 0 {
        let dl = ms.drop_last();
        lemma_entries_facts(dl);
        let e0 = index_entries(dl);
        let n = (ms.len() - 1) as u32;
        let add = ms.last().1.map_values(|f: Seq<char>| (f, n));
        let e = index_entries(ms);
        assert(e == e0 + add);
        assert(n as int == ms.len() - 1);
        assert forall|x: int| 0 <= x < e.len() implies (#[trigger] e[x]).1 < ms.len() && ms[e[x].1 as int].1.contains(
            e[x].0,
        ) by {
            if x < e0.len() {
                assert(e[x] == e0[x]);
                assert(ms[e0[x].1 as int] == dl[e0[x].1 as int]);
            } else {
                let j = x - e0.len();
                assert(e[x] == add[j]);
                assert(ms.last().1[j] == add[j].0);
            }
        }
        assert forall|x: int, y: int| 0 <= x < y < e.len() implies (#[trigger] e[x]).1 <= (#[trigger] e[y]).1 by {
            if y < e0.len() {
                assert(e[x] == e0[x] && e[y] == e0[y]);
            } else if x < e0.len() {
                assert(e[x] == e0[x]);
                assert(e[y] == add[y - e0.len()]);
            } else {
                assert(e[x] == add[x - e0.len()] && e[y] == add[y - e0.len()]);
            }
        }
        assert forall|i: int, f: Seq<char>| 0 <= i < ms.len() && #[trigger] ms[i].1.contains(f) implies exists|x: int|
            0 <= x < e.len() && #[trigger] e[x] == (f, i as u32) by {
            if i < ms.len() - 1 {
                assert(dl[i] == ms[i]);
                assert(dl[i].1.contains(f));
                let x = choose|x: int| 0 <= x < e0.len() && #[trigger] e0[x] == (f, i as u32);
                assert(e[x] == e0[x]);
            } else {
                let j = choose|j: int| 0 <= j < ms.last().1.len() && ms.last().1[j] == f;
                assert(e[e0.len() + j] == add[j]);
            }
        }
    }
}

/// Whether entry `x` names `f`.
pub open spec fn entry_pred(e: Seq<(Seq<char>, u32)>, f: Seq<char>) -> spec_fn(int) -> bool {
    |x: int| e[x].0 == f
}

proof fn lemma_sorted_first(e: Seq<(Seq<char>, u32)>, f: Seq<char>)
    ensures
        ({
            let r = sort_order(entry_keys(e));
            let d = permute(e, r);
            match first_where(e.len() as int, entry_pred(e, f)) {
                Some(xm) => first_where(d.len() as int, entry_pred(d, f)) matches Some(k) && 0 <= k < d.len() && r[k] == xm && d[k] == e[xm],
                None => first_where(d.len() as int, entry_pred(d, f)) is None,
            }
        }),
{
    let keys = entry_keys(e);
    let r = sort_order(keys);
    crate::order::lemma_sort_order_exists(keys);
    let d = permute(e, r);
    let pe = entry_pred(e, f);
    let pd = entry_pred(d, f);
    lemma_first_where_some(e.len() as int, pe);
    lemma_first_where_some(d.len() as int, pd);
    match first_where(e.len() as int, pe) {
        None => {
            assert forall|k: int| 0 <= k < d.len() implies !#[trigger] pd(k) by {
                assert(d[k] == e[r[k]]);
                assert(!pe(r[k]));
            }
            lemma_first_where_none(d.len() as int, pd);
        },
        Some(xm) => {
            assert(lists(r, xm));
            let m = choose|m: int| 0 <= m < r.len() && r[m] == xm;
            assert(d[m] == e[xm]);
            assert(pd(m));
            let k = first_where(d.len() as int, pd)->0;
            assert(d[k] == e[r[k]]);
            if k < m {
                assert(key_before(keys, r[k], r[m]));
                assert(keys[r[k]] == e[r[k]].0);
                assert(keys[r[m]] == e[r[m]].0);
                crate::order::lemma_lt_irreflexive(f);
                assert(r[k] < xm);
                assert(pe(r[k]));
            }
            assert(k == m);
        },
    }
}

proof fn lemma_first_entry_module(ms: Seq<(Seq<u8>, Seq<Seq<char>>)>, f: Seq<char>)
    requires
        ms.len() <= u32::MAX as int + 1,
    ensures
        ({
            let e = index_entries(ms);
            match first_defining(ms, f) {
                Some(i0) => first_where(e.len() as int, entry_pred(e, f)) matches Some(xm) && 0 <= xm < e.len() && e[xm].1 == i0 as u32 && 0 <= i0 < ms.len(),
                None => first_where(e.len() as int, entry_pred(e, f)) is None,
            }
        }),
{
    let e = index_entries(ms);
    lemma_entries_facts(ms);
    let pm = defines_pred(ms, f);
    let pe = entry_pred(e, f);
    lemma_first_where_some(ms.len() as int, pm);
    lemma_first_where_some(e.len() as int, pe);
    match first_defining(ms, f) {
        None => {
            assert forall|x: int| 0 <= x < e.len() implies !#[trigger] pe(x) by {
                if e[x].0 == f {
                    assert(pm(e[x].1 as int));
                }
            }
            lemma_first_where_none(e.len() as int, pe);
        },
        Some(i0) => {
            assert(ms[i0].1.contains(f));
            let x0 = choose|x: int| 0 <= x < e.len() && #[trigger] e[x] == (f, i0 as u32);
            assert(pe(x0));
            let xm = first_where(e.len() as int, pe)->0;
            let j = e[xm].1 as int;
            assert(pm(j));
            assert(j >= i0);
            if j > i0 {
                if x0 > xm {
                    assert(e[xm].1 <= e[x0].1);
                } else {
                    assert(x0 != xm);
                }
            }
        },
    }
}

proof fn lemma_lookup_via(cache: CompletionCache, d: Seq<(Seq<char>, u32)>, f: Seq<char>)
    requires
        index_view(cache.dyn_index@) == d,
    ensures
        lookup_bytecode(cache, f) == (match first_where(d.len() as int, entry_pred(d, f)) {
            Some(k) => if (d[k].1 as int) < cache.bytecodes@.len() {
                Some(cache.bytecodes@[d[k].1 as int]@)
            } else {
                None
            },
            None => None::<Seq<u8>>,
        }),
{
    assert(cache.dyn_index@.len() == d.len());
    assert forall|k: int| 0 <= k < cache.dyn_index@.len() implies #[trigger] index_pred(cache, f)(k) == entry_pred(d, f)(k) by {
        assert(d[k] == (cache.dyn_index@[k].0@, cache.dyn_index@[k].1));
    }
    lemma_first_where_agree(cache.dyn_index@.len() as int, index_pred(cache, f), entry_pred(d, f));
    lemma_first_where_some(d.len() as int, entry_pred(d, f));
    match first_where(d.len() as int, entry_pred(d, f)) {
        Some(k) => {
            assert(d[k] == (cache.dyn_index@[k].0@, cache.dyn_index@[k].1));
        },
        None => {},
    }
}

/// After a cache is assembled from compiled modules, looking a dynamic function up in it gives
/// the bytecode of the first module, in scan order, that defines the function, and nothing
/// where no module defines it.
pub proof fn lemma_lookup_finds_defining_module(modules: Seq<DynamicModule>, cache: CompletionCache, f: Seq<char>)
    requires
        modules.len() <= u32::MAX as int + 1,
        cache.bytecodes@.map_values(|b: Vec<u8>| b@) == modules_view(modules).map_values(
            |m: (Seq<u8>, Seq<Seq<char>>)| m.0,
        ),
        index_view(cache.dyn_index@) == dyn_index_of(modules_view(modules)),
    ensures
        lookup_bytecode(cache, f) == (match first_defining(modules_view(modules), f) {
            Some(i) => Some(modules_view(modules)[i].0),
            None => None::<Seq<u8>>,
        }),
{
    let ms = modules_view(modules);
    let e = index_entries(ms);
    let d = dyn_index_of(ms);
    assert(d == permute(e, sort_order(entry_keys(e)))) by {
        reveal(dyn_index_of);
    }
    lemma_lookup_via(cache, d, f);
    lemma_sorted_first(e, f);
    lemma_first_entry_module(ms, f);
    assert(cache.bytecodes@.len() == ms.len()) by {
        assert(cache.bytecodes@.map_values(|b: Vec<u8>| b@).len() == cache.bytecodes@.len());
    }
    match first_defining(ms, f) {
        Some(i0) => {
            assert(cache.bytecodes@.map_values(|b: Vec<u8>| b@)[i0] == cache.bytecodes@[i0]@);
            assert(ms.map_values(|m: (Seq<u8>, Seq<Seq<char>>)| m.0)[i0] == ms[i0].0);
        },
        None => {},
    }
}

/// Every entry of an assembled cache's index points at one of the cache's compiled modules,
/// and that module defines the function the entry names.
pub proof fn lemma_index_points_at_defining_module(modules: Seq<DynamicModule>, cache: CompletionCache)
    requires
        modules.len() <= u32::MAX as int + 1,
        cache.bytecodes@.map_values(|b: Vec<u8>| b@) == modules_view(modules).map_values(
            |m: (Seq<u8>, Seq<Seq<char>>)| m.0,
        ),
        index_view(cache.dyn_index@) == dyn_index_of(modules_view(modules)),
    ensures
        forall|k: int|
            0 <= k < cache.dyn_index@.len() ==> (#[trigger] cache.dyn_index@[k]).1 < cache.bytecodes@.len()
                && modules_view(modules)[cache.dyn_index@[k].1 as int].1.contains(cache.dyn_index@[k].0@),
{
    let ms = modules_view(modules);
    let e = index_entries(ms);
    let keys = entry_keys(e);
    let r = sort_order(keys);
    let d = dyn_index_of(ms);
    assert(d == permute(e, r)) by {
        reveal(dyn_index_of);
    }
    crate::order::lemma_sort_order_exists(keys);
    lemma_entries_facts(ms);
    assert(keys.len() == e.len());
    assert(r.len() == e.len());
    assert(index_view(cache.dyn_index@).len() == cache.dyn_index@.len());
    assert(d.len() == r.len());
    assert(cache.bytecodes@.len() == ms.len()) by {
        assert(cache.bytecodes@.map_values(|b: Vec<u8>| b@).len() == cache.bytecodes@.len());
    }
    assert forall|k: int| 0 <= k < cache.dyn_index@.len() implies (#[trigger] cache.dyn_index@[k]).1
        < cache.bytecodes@.len() && ms[cache.dyn_index@[k].1 as int].1.contains(cache.dyn_index@[k].0@) by {
        assert(index_view(cache.dyn_index@)[k] == (cache.dyn_index@[k].0@, cache.dyn_index@[k].1));
        assert(0 <= r[k] < e.len());
        assert(d[k] == e[r[k]]);
    }
}

} // verus!
