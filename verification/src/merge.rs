use vstd::prelude::*;
use crate::cache::CommandNode;
use crate::order::{sorted_order, sort_order, is_sort_order, permute, key_before, lists, seq_lt, idx_view};
use crate::seqs::{no_repeats, lemma_first_where_agree, first_where, lemma_first_where_found, lemma_first_where_none, lemma_first_where_some};
use crate::text::{strings_view, str_eq};

verus! {

/// A node with no name, no description and nothing below it.
pub open spec fn is_empty_node(n: CommandNode) -> bool {
    &&& n.name@ == Seq::<char>::empty()
    &&& n.description@ == Seq::<char>::empty()
    &&& n.style is None
    &&& n.target is None
    &&& n.subcommands@.len() == 0
    &&& n.options@.len() == 0
    &&& n.args_count == 0
    &&& n.dynamic_func is None
    &&& n.static_args is None
}

/// A node with no name, no description and nothing below it.
pub fn empty_node() -> (r: CommandNode)
    ensures
        is_empty_node(r),
{
    CommandNode {
        name: String::new(),
        description: String::new(),
        style: None,
        target: None,
        subcommands: Vec::new(),
        options: Vec::new(),
        args_count: 0,
        dynamic_func: None,
        static_args: None,
    }
}

/// The top-level commands of all scripts, script after script.
pub open spec fn all_subs(nodes: Seq<CommandNode>) -> Seq<CommandNode>
    decreases nodes.len(),
{
    if nodes.len() == 0 {
        Seq::<CommandNode>::empty()
    } else {
        all_subs(nodes.drop_last()) + nodes.last().subcommands@
    }
}

/// The names of some commands.
pub open spec fn names_of(s: Seq<CommandNode>) -> Seq<Seq<char>> {
    s.map_values(|c: CommandNode| c.name@)
}

/// The aliases among the first `k` commands under `n`: each alias's name and the name of the
/// command its target index points at, where that index is in range.
pub open spec fn aliases_upto(n: CommandNode, k: int) -> Seq<(Seq<char>, Seq<char>)>
    decreases k,
{
    if k <= 0 {
        Seq::<(Seq<char>, Seq<char>)>::empty()
    } else {
        let r = aliases_upto(n, k - 1);
        let s = n.subcommands@;
        match s[k - 1].target {
            Some(t) => if (t as int) < s.len() {
                r.push((s[k - 1].name@, s[t as int].name@))
            } else {
                r
            },
            None => r,
        }
    }
}

/// The aliases of all scripts, script after script.
pub open spec fn all_aliases(nodes: Seq<CommandNode>) -> Seq<(Seq<char>, Seq<char>)>
    decreases nodes.len(),
{
    if nodes.len() == 0 {
        Seq::<(Seq<char>, Seq<char>)>::empty()
    } else {
        all_aliases(nodes.drop_last()) + aliases_upto(nodes.last(), nodes.last().subcommands@.len() as int)
    }
}

/// All top-level commands, stably sorted by name.
#[verifier::opaque]
pub open spec fn sorted_subs(nodes: Seq<CommandNode>) -> Seq<CommandNode> {
    permute(all_subs(nodes), sort_order(names_of(all_subs(nodes))))
}

/// Whether position `k` of a sorted name list repeats the name before it.
pub open spec fn repeat_pred(names: Seq<Seq<char>>) -> spec_fn(int) -> bool {
    |k: int| 0 < k && names[k] == names[k - 1]
}

/// The first name that two scripts both define, in sorted order, if any.
#[verifier::opaque]
pub open spec fn duplicate_name(nodes: Seq<CommandNode>) -> Option<Seq<char>> {
    let names = names_of(sorted_subs(nodes));
    match first_where(names.len() as int, repeat_pred(names)) {
        Some(k) => Some(names[k]),
        None => None,
    }
}

/// Whether command `i` of `s` is named `name`.
pub open spec fn named_pred(s: Seq<CommandNode>, name: Seq<char>) -> spec_fn(int) -> bool {
    |i: int| s[i].name@ == name
}

/// The position of the first command named `name`.
pub open spec fn index_named(s: Seq<CommandNode>, name: Seq<char>) -> Option<int> {
    first_where(s.len() as int, named_pred(s, name))
}

/// `c` with its target set to `t`.
pub open spec fn with_target(c: CommandNode, t: u32) -> CommandNode {
    CommandNode { target: Some(t), ..c }
}

/// Points the command named `m.0` at the position of the command named `m.1`, where both
/// exist.
#[verifier::opaque]
pub open spec fn retarget(s: Seq<CommandNode>, m: (Seq<char>, Seq<char>)) -> Seq<CommandNode> {
    match (index_named(s, m.1), index_named(s, m.0)) {
        (Some(t), Some(a)) => s.update(a, with_target(s[a], t as u32)),
        _ => s,
    }
}

/// The aliases applied in order.
#[verifier::opaque]
pub open spec fn apply_aliases(s: Seq<CommandNode>, maps: Seq<(Seq<char>, Seq<char>)>) -> Seq<CommandNode>
    decreases maps.len(),
{
    if maps.len() == 0 {
        s
    } else {
        retarget(apply_aliases(s, maps.drop_last()), maps.last())
    }
}

/// The top-level commands of the merged tree.
#[verifier::opaque]
pub open spec fn merged_subs(nodes: Seq<CommandNode>) -> Seq<CommandNode> {
    apply_aliases(sorted_subs(nodes), all_aliases(nodes))
}

/// Why the scripts' trees could not be merged.
#[derive(Debug)]
pub enum MergeError {
    /// Two scripts define a top-level command of this name.
    DuplicateCommand(String),
}

proof fn lemma_aliases_step(n: CommandNode, k: int)
    requires
        0 < k,
    ensures
        aliases_upto(n, k) == (match n.subcommands@[k - 1].target {
            Some(t) => if (t as int) < n.subcommands@.len() {
                aliases_upto(n, k - 1).push((n.subcommands@[k - 1].name@, n.subcommands@[t as int].name@))
            } else {
                aliases_upto(n, k - 1)
            },
            None => aliases_upto(n, k - 1),
        }),
{
}

fn collect_aliases(nodes: &Vec<CommandNode>) -> (r: Vec<(String, String)>)
    ensures
        pair_views(r@) == all_aliases(nodes@),
{
    let mut r: Vec<(String, String)> = Vec::new();
    let mut i: usize = 0;
    while i < nodes.len()
        invariant
            i <= nodes.len(),
            r@.map_values(|p: (String, String)| (p.0@, p.1@)) == all_aliases(nodes@.take(i as int)),
        decreases nodes.len() - i,
    {
        let node = &nodes[i];
        let ghost before = r@.map_values(|p: (String, String)| (p.0@, p.1@));
        let mut j: usize = 0;
        while j < node.subcommands.len()
            invariant
                i < nodes.len(),
                *node == nodes@[i as int],
                j <= node.subcommands.len(),
                r@.map_values(|p: (String, String)| (p.0@, p.1@)) == before + aliases_upto(*node, j as int),
            decreases node.subcommands.len() - j,
        {
            let sub = &node.subcommands[j];
            proof {
                lemma_aliases_step(*node, j + 1);
            }
            match sub.target {
                Some(t) => {
                    if (t as usize) < node.subcommands.len() {
                        let a = sub.name.clone();
                        let b = node.subcommands[t as usize].name.clone();
                        let ghost prev = r@;
                        r.push((a, b));
                        assert(r@.map_values(|p: (String, String)| (p.0@, p.1@)) =~= prev.map_values(
                            |p: (String, String)| (p.0@, p.1@),
                        ).push((sub.name@, node.subcommands@[t as int].name@)));
                    }
                },
                None => {},
            }
            j = j + 1;
        }
        assert(nodes@.take(i + 1).drop_last() =~= nodes@.take(i as int));
        i = i + 1;
    }
    assert(nodes@.take(nodes.len() as int) =~= nodes@);
    r
}

/// Moves every top-level command of every script, script after script, into one list.
fn flatten_subs(nodes: Vec<CommandNode>) -> (r: Vec<CommandNode>)
    ensures
        r@ == all_subs(nodes@),
{
    let ghost orig = nodes@;
    let mut nodes = nodes;
    let mut r: Vec<CommandNode> = Vec::new();
    let mut i: usize = 0;
    while i < nodes.len()
        invariant
            nodes@.len() == orig.len(),
            i <= nodes.len(),
            forall|k: int| i <= k < orig.len() ==> #[trigger] nodes@[k] == orig[k],
            r@ == all_subs(orig.take(i as int)),
        decreases nodes.len() - i,
    {
        let mut tmp = empty_node();
        nodes.set_and_swap(i, &mut tmp);
        let mut subs = tmp.subcommands;
        assert(orig.take(i + 1).drop_last() =~= orig.take(i as int));
        assert(orig.take(i + 1).last() == orig[i as int]);
        r.append(&mut subs);
        i = i + 1;
    }
    assert(orig.take(orig.len() as int) =~= orig);
    r
}

fn names_vec(s: &Vec<CommandNode>) -> (r: Vec<String>)
    ensures
        strings_view(r@) == names_of(s@),
{
    let mut r: Vec<String> = Vec::new();
    for i in 0..s.len()
        invariant
            strings_view(r@) == names_of(s@.take(i as int)),
    {
        r.push(s[i].name.clone());
        assert(names_of(s@.take(i + 1)) =~= names_of(s@.take(i as int)).push(s@[i as int].name@));
        assert(strings_view(r@) =~= strings_view(r@.drop_last()).push(r@.last()@));
    }
    assert(s@.take(s.len() as int) =~= s@);
    r
}

/// Moves the items of `all` into a new list in the order `order`.
fn take_in_order(all: Vec<CommandNode>, order: &Vec<usize>) -> (r: Vec<CommandNode>)
    requires
        crate::order::is_perm(idx_view(order@), all@.len() as int),
    ensures
        r@ == permute(all@, idx_view(order@)),
{
    let ghost orig = all@;
    let mut all = all;
    let mut r: Vec<CommandNode> = Vec::new();
    let mut k: usize = 0;
    while k < order.len()
        invariant
            crate::order::is_perm(idx_view(order@), orig.len() as int),
            all@.len() == orig.len(),
            k <= order.len(),
            forall|m: int| k <= m < order@.len() ==> all@[#[trigger] order@[m] as int] == orig[order@[m] as int],
            r@ =~= permute(orig, idx_view(order@)).take(k as int),
        decreases order.len() - k,
    {
        let idx = order[k];
        assert(idx_view(order@)[k as int] == idx as int);
        let mut tmp = empty_node();
        let ghost before = all@;
        all.set_and_swap(idx, &mut tmp);
        proof {
            assert forall|m: int| k + 1 <= m < order@.len() implies all@[#[trigger] order@[m] as int] == orig[order@[m] as int] by {
                assert(idx_view(order@)[m] != idx_view(order@)[k as int]);
                assert(before[order@[m] as int] == orig[order@[m] as int]);
            }
        }
        r.push(tmp);
        k = k + 1;
    }
    r
}

fn find_named(s: &Vec<CommandNode>, name: &String) -> (r: Option<usize>)
    ensures
        r matches Some(i) ==> i < s@.len(),
        match r {
            Some(i) => index_named(s@, name@) == Some(i as int),
            None => index_named(s@, name@) is None,
        },
{
    let ghost p = named_pred(s@, name@);
    let mut i: usize = 0;
    while i < s.len()
        invariant
            p == named_pred(s@, name@),
            i <= s.len(),
            forall|j: int| 0 <= j < i ==> !#[trigger] p(j),
        decreases s.len() - i,
    {
        if str_eq(s[i].name.as_str(), name.as_str()) {
            proof {
                lemma_first_where_found(s@.len() as int, p, i as int);
            }
            return Some(i);
        }
        i = i + 1;
    }
    proof {
        lemma_first_where_none(s@.len() as int, p);
    }
    None
}

/// The commands stably sorted by name.
fn sort_by_name(all: Vec<CommandNode>) -> (r: Vec<CommandNode>)
    ensures
        r@ == permute(all@, sort_order(names_of(all@))),
{
    let names = names_vec(&all);
    let order = sorted_order(&names);
    take_in_order(all, &order)
}

/// The views of a list of string pairs.
pub open spec fn pair_views(v: Seq<(String, String)>) -> Seq<(Seq<char>, Seq<char>)> {
    v.map_values(|p: (String, String)| (p.0@, p.1@))
}

fn first_repeat(subs: &Vec<CommandNode>) -> (r: Option<usize>)
    ensures
        r matches Some(k) ==> 0 < k < subs@.len(),
        match r {
            Some(k) => first_where(subs@.len() as int, repeat_pred(names_of(subs@))) == Some(k as int),
            None => first_where(subs@.len() as int, repeat_pred(names_of(subs@))) is None,
        },
{
    let ghost snames = names_of(subs@);
    let ghost p = repeat_pred(snames);
    let mut k: usize = 1;
    while k < subs.len()
        invariant
            1 <= k,
            snames == names_of(subs@),
            p == repeat_pred(snames),
            forall|j: int| 0 <= j < k && j < subs@.len() ==> !#[trigger] p(j),
        decreases subs.len() - k,
    {
        if str_eq(subs[k].name.as_str(), subs[k - 1].name.as_str()) {
            proof {
                lemma_first_where_found(snames.len() as int, p, k as int);
            }
            return Some(k);
        }
        k = k + 1;
    }
    proof {
        lemma_first_where_none(snames.len() as int, p);
    }
    None
}

proof fn lemma_retarget(s: Seq<CommandNode>, m: (Seq<char>, Seq<char>))
    ensures
        retarget(s, m) == (match (index_named(s, m.1), index_named(s, m.0)) {
            (Some(t), Some(a)) => s.update(a, with_target(s[a], t as u32)),
            _ => s,
        }),
{
    reveal(retarget);
}

fn apply_alias_list(subs: &mut Vec<CommandNode>, aliases: &Vec<(String, String)>)
    ensures
        final(subs)@ == apply_aliases(old(subs)@, pair_views(aliases@)),
{
    let ghost start = subs@;
    let ghost amaps = pair_views(aliases@);
    proof {
        lemma_apply_step(start, amaps.take(0));
    }
    let mut m: usize = 0;
    while m < aliases.len()
        invariant
            m <= aliases.len(),
            amaps == pair_views(aliases@),
            subs@ == apply_aliases(start, amaps.take(m as int)),
        decreases aliases.len() - m,
    {
        let ghost before = subs@;
        assert(amaps.take(m + 1).drop_last() =~= amaps.take(m as int));
        assert(amaps.take(m + 1).last() == (aliases@[m as int].0@, aliases@[m as int].1@));
        let t = find_named(subs, &aliases[m].1);
        let a = find_named(subs, &aliases[m].0);
        proof {
            lemma_apply_step(start, amaps.take(m + 1));
            lemma_retarget(before, (aliases@[m as int].0@, aliases@[m as int].1@));
        }
        match (t, a) {
            (Some(ti), Some(ai)) => {
                let mut tmp = empty_node();
                subs.set_and_swap(ai, &mut tmp);
                tmp.target = Some(ti as u32);
                subs.set_and_swap(ai, &mut tmp);
                assert(subs@ =~= before.update(ai as int, with_target(before[ai as int], ti as u32)));
            },
            _ => {},
        }
        m = m + 1;
    }
    assert(amaps.take(aliases.len() as int) =~= amaps);
}

/// Merges the trees that the scripts define into one: all their top-level commands, sorted by
/// name, with each alias pointing at the new position of the command it stood for. Two
/// scripts may not define the same top-level command.
pub fn merge_command_nodes(nodes: Vec<CommandNode>) -> (r: Result<CommandNode, MergeError>)
    ensures
        match r {
            Ok(root) => {
                &&& duplicate_name(nodes@) is None
                &&& root.subcommands@ == merged_subs(nodes@)
                &&& root.name@ == Seq::<char>::empty()
                &&& root.description@ == Seq::<char>::empty()
                &&& root.style is None
                &&& root.target is None
                &&& root.options@.len() == 0
                &&& root.args_count == 0
                &&& root.dynamic_func is None
                &&& root.static_args is None
            },
            Err(MergeError::DuplicateCommand(n)) => duplicate_name(nodes@) == Some(n@),
        },
{
    let ghost input = nodes@;
    let aliases = collect_aliases(&nodes);
    let all = flatten_subs(nodes);
    let mut subs = sort_by_name(all);
    assert(subs@ == sorted_subs(input)) by {
        reveal(sorted_subs);
    }
    match first_repeat(&subs) {
        Some(k) => {
            let n = subs[k].name.clone();
            assert(duplicate_name(input) == Some(n@)) by {
                reveal(duplicate_name);
            }
            return Err(MergeError::DuplicateCommand(n));
        },
        None => {
            assert(duplicate_name(input) is None) by {
                reveal(duplicate_name);
            }
        },
    }
    apply_alias_list(&mut subs, &aliases);
    assert(subs@ == merged_subs(input)) by {
        reveal(merged_subs);
    }
    let mut root = empty_node();
    root.subcommands = subs;
    Ok(root)
}

/// The alias names of a list of alias pairs.
pub open spec fn alias_names(maps: Seq<(Seq<char>, Seq<char>)>) -> Seq<Seq<char>> {
    maps.map_values(|m: (Seq<char>, Seq<char>)| m.0)
}

proof fn lemma_aliases_upto_facts(n: CommandNode, k: int)
    requires
        0 <= k <= n.subcommands@.len(),
    ensures
        forall|q: int| 0 <= q < aliases_upto(n, k).len() ==> names_of(n.subcommands@.take(k)).contains(
            #[trigger] aliases_upto(n, k)[q].0,
        ) && names_of(n.subcommands@).contains(aliases_upto(n, k)[q].1),
        no_repeats(names_of(n.subcommands@)) ==> no_repeats(alias_names(aliases_upto(n, k))),
    decreases k,
{
    if k > 0 {
        lemma_aliases_upto_facts(n, k - 1);
        let s = n.subcommands@;
        let prev = aliases_upto(n, k - 1);
        let cur = aliases_upto(n, k);
        let pn = names_of(s.take(k - 1));
        let kn = names_of(s.take(k));
        assert(forall|j: int| 0 <= j < k - 1 ==> #[trigger] pn[j] == kn[j]);
        assert forall|q: int| 0 <= q < prev.len() implies kn.contains(#[trigger] prev[q].0) by {
            let j = choose|j: int| 0 <= j < pn.len() && pn[j] == prev[q].0;
            assert(kn[j] == pn[j]);
        }
        assert(kn[k - 1] == s[k - 1].name@);
        match s[k - 1].target {
            Some(t) => {
                if (t as int) < s.len() {
                    assert(cur == prev.push((s[k - 1].name@, s[t as int].name@)));
                    assert(names_of(s)[t as int] == s[t as int].name@);
                    if no_repeats(names_of(s)) {
                        assert forall|q: int| 0 <= q < prev.len() implies #[trigger] prev[q].0 != s[k - 1].name@ by {
                            let j = choose|j: int| 0 <= j < pn.len() && pn[j] == prev[q].0;
                            assert(names_of(s)[j] == pn[j]);
                            assert(names_of(s)[k - 1] == s[k - 1].name@);
                        }
                        assert forall|a: int, b: int| 0 <= a < b < alias_names(cur).len() implies alias_names(cur)[a]
                            != alias_names(cur)[b] by {
                            if b == prev.len() {
                                assert(alias_names(cur)[a] == prev[a].0);
                            } else {
                                assert(alias_names(cur)[a] == alias_names(prev)[a]);
                                assert(alias_names(cur)[b] == alias_names(prev)[b]);
                            }
                        }
                    }
                } else {
                    assert(cur == prev);
                    if no_repeats(names_of(s)) {
                        assert(alias_names(cur) == alias_names(prev));
                    }
                }
            },
            None => {
                assert(cur == prev);
                if no_repeats(names_of(s)) {
                    assert(alias_names(cur) == alias_names(prev));
                }
            },
        }
    }
}

proof fn lemma_all_aliases_facts(nodes: Seq<CommandNode>)
    requires
        no_repeats(names_of(all_subs(nodes))),
    ensures
        no_repeats(alias_names(all_aliases(nodes))),
        forall|q: int| 0 <= q < all_aliases(nodes).len() ==> names_of(all_subs(nodes)).contains(
            (#[trigger] all_aliases(nodes)[q]).0,
        ) && names_of(all_subs(nodes)).contains(all_aliases(nodes)[q].1),
    decreases nodes.len(),
{
    if nodes.len() > 0 {
        let dl = nodes.drop_last();
        let last = nodes.last();
        let ls = last.subcommands@;
        let a = names_of(all_subs(dl));
        let b = names_of(ls);
        let ab = names_of(all_subs(nodes));
        assert(ab =~= a + b);
        assert(no_repeats(a)) by {
            assert forall|i: int, j: int| 0 <= i < j < a.len() implies a[i] != a[j] by {
                assert(ab[i] == a[i] && ab[j] == a[j]);
            }
        }
        assert(no_repeats(b)) by {
            assert forall|i: int, j: int| 0 <= i < j < b.len() implies b[i] != b[j] by {
                assert(ab[a.len() + i] == b[i] && ab[a.len() + j] == b[j]);
            }
        }
        lemma_all_aliases_facts(dl);
        lemma_aliases_upto_facts(last, ls.len() as int);
        assert(ls.take(ls.len() as int) =~= ls);
        let m1 = all_aliases(dl);
        let m2 = aliases_upto(last, ls.len() as int);
        let m = all_aliases(nodes);
        assert(m == m1 + m2);
        assert forall|q: int| 0 <= q < m.len() implies ab.contains((#[trigger] m[q]).0) && ab.contains(m[q].1) by {
            if q < m1.len() {
                assert(m[q] == m1[q]);
                let i = choose|i: int| 0 <= i < a.len() && a[i] == m1[q].0;
                assert(ab[i] == a[i]);
                let j = choose|j: int| 0 <= j < a.len() && a[j] == m1[q].1;
                assert(ab[j] == a[j]);
            } else {
                assert(m[q] == m2[q - m1.len()]);
                let i = choose|i: int| 0 <= i < b.len() && b[i] == m2[q - m1.len()].0;
                assert(ab[a.len() + i] == b[i]);
                let j = choose|j: int| 0 <= j < b.len() && b[j] == m2[q - m1.len()].1;
                assert(ab[a.len() + j] == b[j]);
            }
        }
        assert forall|x: int, y: int| 0 <= x < y < alias_names(m).len() implies alias_names(m)[x]
            != alias_names(m)[y] by {
            if y < m1.len() {
                assert(alias_names(m)[x] == alias_names(m1)[x]);
                assert(alias_names(m)[y] == alias_names(m1)[y]);
            } else if x >= m1.len() {
                assert(alias_names(m)[x] == alias_names(m2)[x - m1.len()]);
                assert(alias_names(m)[y] == alias_names(m2)[y - m1.len()]);
            } else {
                assert(m[x] == m1[x]);
                assert(m[y] == m2[y - m1.len()]);
                let i = choose|i: int| 0 <= i < a.len() && a[i] == m1[x].0;
                let j = choose|j: int| 0 <= j < b.len() && b[j] == m2[y - m1.len()].0;
                assert(ab[i] == a[i]);
                assert(ab[a.len() + j] == b[j]);
            }
        }
    }
}

proof fn lemma_apply_step(s: Seq<CommandNode>, maps: Seq<(Seq<char>, Seq<char>)>)
    ensures
        maps.len() == 0 ==> apply_aliases(s, maps) == s,
        maps.len() > 0 ==> apply_aliases(s, maps) == retarget(apply_aliases(s, maps.drop_last()), maps.last()),
{
    reveal(apply_aliases);
}

proof fn lemma_index_named_bounds(s: Seq<CommandNode>, x: Seq<char>)
    ensures
        index_named(s, x) matches Some(i) ==> 0 <= i < s.len() && s[i].name@ == x,
{
    lemma_first_where_some(s.len() as int, named_pred(s, x));
}

proof fn lemma_retarget_names(s: Seq<CommandNode>, m: (Seq<char>, Seq<char>))
    ensures
        names_of(retarget(s, m)) == names_of(s),
{
    lemma_retarget(s, m);
    lemma_index_named_bounds(s, m.0);
    lemma_index_named_bounds(s, m.1);
    let r = retarget(s, m);
    assert(r.len() == s.len());
    assert forall|i: int| 0 <= i < s.len() implies #[trigger] names_of(r)[i] == names_of(s)[i] by {
        match (index_named(s, m.1), index_named(s, m.0)) {
            (Some(t), Some(a)) => {
                if i == a {
                    assert(r[i] == with_target(s[a], t as u32));
                } else {
                    assert(r[i] == s[i]);
                }
            },
            _ => {},
        }
    }
    assert(names_of(r) =~= names_of(s));
}

proof fn lemma_apply_names(s: Seq<CommandNode>, maps: Seq<(Seq<char>, Seq<char>)>)
    ensures
        names_of(apply_aliases(s, maps)) == names_of(s),
    decreases maps.len(),
{
    lemma_apply_step(s, maps);
    if maps.len() > 0 {
        lemma_apply_names(s, maps.drop_last());
        lemma_retarget_names(apply_aliases(s, maps.drop_last()), maps.last());
    }
}

proof fn lemma_index_by_names(s1: Seq<CommandNode>, s2: Seq<CommandNode>, x: Seq<char>)
    requires
        names_of(s1) == names_of(s2),
    ensures
        index_named(s1, x) == index_named(s2, x),
{
    assert(s1.len() == names_of(s1).len());
    assert(s2.len() == names_of(s2).len());
    assert forall|i: int| 0 <= i < s1.len() implies #[trigger] named_pred(s1, x)(i) == named_pred(s2, x)(i) by {
        assert(names_of(s1)[i] == names_of(s2)[i]);
    }
    lemma_first_where_agree(s1.len() as int, named_pred(s1, x), named_pred(s2, x));
}

proof fn lemma_index_named_found(s: Seq<CommandNode>, x: Seq<char>)
    requires
        names_of(s).contains(x),
    ensures
        index_named(s, x) matches Some(i) && 0 <= i < s.len() && s[i].name@ == x,
{
    lemma_first_where_some(s.len() as int, named_pred(s, x));
    let j = choose|j: int| 0 <= j < names_of(s).len() && names_of(s)[j] == x;
    assert(named_pred(s, x)(j));
}

proof fn lemma_retarget_at(prev: Seq<CommandNode>, m: (Seq<char>, Seq<char>), a: int, t: int)
    requires
        index_named(prev, m.0) == Some(a),
        index_named(prev, m.1) == Some(t),
    ensures
        retarget(prev, m)[a].target == Some(t as u32),
        retarget(prev, m).len() == prev.len(),
{
    lemma_retarget(prev, m);
    lemma_index_named_bounds(prev, m.0);
}

proof fn lemma_retarget_other(prev: Seq<CommandNode>, m: (Seq<char>, Seq<char>), a: int)
    requires
        0 <= a < prev.len(),
        prev[a].name@ != m.0,
    ensures
        retarget(prev, m)[a] == prev[a],
        retarget(prev, m).len() == prev.len(),
{
    lemma_retarget(prev, m);
    lemma_index_named_bounds(prev, m.0);
}

proof fn lemma_apply_targets(s: Seq<CommandNode>, maps: Seq<(Seq<char>, Seq<char>)>, q: int, a: int, t: int)
    requires
        0 <= q < maps.len(),
        forall|x: int, y: int| 0 <= x < y < maps.len() ==> (#[trigger] maps[x]).0 != (#[trigger] maps[y]).0,
        index_named(s, maps[q].0) == Some(a),
        index_named(s, maps[q].1) == Some(t),
        0 <= a < s.len(),
        s[a].name@ == maps[q].0,
    ensures
        apply_aliases(s, maps)[a].target == Some(t as u32),
        apply_aliases(s, maps).len() == s.len(),
    decreases maps.len(),
{
    let dl = maps.drop_last();
    let last = maps.last();
    let prev = apply_aliases(s, dl);
    lemma_apply_step(s, maps);
    lemma_apply_names(s, dl);
    assert(prev.len() == names_of(prev).len() && s.len() == names_of(s).len());
    if q == maps.len() - 1 {
        lemma_index_by_names(prev, s, last.0);
        lemma_index_by_names(prev, s, last.1);
        lemma_retarget_at(prev, last, a, t);
    } else {
        assert(dl[q] == maps[q]);
        lemma_apply_targets(s, dl, q, a, t);
        assert(maps[q].0 != maps[maps.len() - 1].0);
        assert(names_of(prev)[a] == names_of(s)[a]);
        lemma_retarget_other(prev, last, a);
    }
}

proof fn lemma_sorted_strict(nodes: Seq<CommandNode>)
    requires
        duplicate_name(nodes) is None,
    ensures
        forall|a: int, b: int| 0 <= a < b < sorted_subs(nodes).len() ==> seq_lt(
            #[trigger] names_of(sorted_subs(nodes))[a],
            #[trigger] names_of(sorted_subs(nodes))[b],
        ),
        sorted_subs(nodes).len() == all_subs(nodes).len(),
        crate::order::is_perm(sort_order(names_of(all_subs(nodes))), all_subs(nodes).len() as int),
        sorted_subs(nodes) == permute(all_subs(nodes), sort_order(names_of(all_subs(nodes)))),
{
    reveal(sorted_subs);
    reveal(duplicate_name);
    let all = all_subs(nodes);
    let keys = names_of(all);
    let r = sort_order(keys);
    crate::order::lemma_sort_order_exists(keys);
    let sn = names_of(sorted_subs(nodes));
    let p = repeat_pred(sn);
    lemma_first_where_some(sn.len() as int, p);
    assert forall|a: int, b: int| 0 <= a < b < sn.len() implies seq_lt(#[trigger] sn[a], #[trigger] sn[b]) by {
        lemma_sorted_strict_from(keys, r, sn, a, b);
    }
}

proof fn lemma_sorted_strict_from(keys: Seq<Seq<char>>, r: Seq<int>, sn: Seq<Seq<char>>, a: int, b: int)
    requires
        is_sort_order(keys, r),
        sn.len() == r.len(),
        forall|k: int| 0 <= k < sn.len() ==> #[trigger] sn[k] == keys[r[k]],
        forall|j: int| 0 <= j < sn.len() ==> !#[trigger] repeat_pred(sn)(j),
        0 <= a < b < sn.len(),
    ensures
        seq_lt(sn[a], sn[b]),
    decreases b - a,
{
    assert(key_before(keys, r[b - 1], r[b]));
    assert(!repeat_pred(sn)(b));
    assert(sn[b - 1] != sn[b]);
    if b - 1 > a {
        lemma_sorted_strict_from(keys, r, sn, a, b - 1);
        crate::order::lemma_lt_transitive(sn[a], sn[b - 1], sn[b]);
    }
}

/// When the merge succeeds, the merged top-level commands are sorted strictly by name, and
/// they are the scripts' top-level commands: as many, with the same names.
pub proof fn lemma_merge_sorted_and_complete(nodes: Seq<CommandNode>)
    requires
        duplicate_name(nodes) is None,
    ensures
        forall|a: int, b: int| 0 <= a < b < merged_subs(nodes).len() ==> seq_lt(
            #[trigger] names_of(merged_subs(nodes))[a],
            #[trigger] names_of(merged_subs(nodes))[b],
        ),
        merged_subs(nodes).len() == all_subs(nodes).len(),
        forall|i: int| 0 <= i < all_subs(nodes).len() ==> names_of(merged_subs(nodes)).contains(
            #[trigger] all_subs(nodes)[i].name@,
        ),
        forall|k: int| 0 <= k < merged_subs(nodes).len() ==> names_of(all_subs(nodes)).contains(
            #[trigger] merged_subs(nodes)[k].name@,
        ),
{
    reveal(merged_subs);
    lemma_sorted_strict(nodes);
    let s = sorted_subs(nodes);
    let all = all_subs(nodes);
    let r = sort_order(names_of(all));
    lemma_apply_names(s, all_aliases(nodes));
    let m = merged_subs(nodes);
    assert(names_of(m) == names_of(s));
    assert(m.len() == names_of(m).len());
    assert forall|i: int| 0 <= i < all.len() implies names_of(m).contains(#[trigger] all[i].name@) by {
        assert(lists(r, i));
        let k = choose|k: int| 0 <= k < r.len() && r[k] == i;
        assert(s[k] == all[i]);
        assert(names_of(m)[k] == names_of(s)[k]);
    }
    assert forall|k: int| 0 <= k < m.len() implies names_of(all).contains(#[trigger] m[k].name@) by {
        assert(names_of(m)[k] == names_of(s)[k]);
        assert(s[k] == all[r[k]]);
        assert(names_of(all)[r[k]] == all[r[k]].name@);
    }
}

/// When the merge succeeds, every alias of every script points, in the merged tree, at the
/// command whose name its target had in its own script.
pub proof fn lemma_merge_keeps_aliases(nodes: Seq<CommandNode>, q: int)
    requires
        duplicate_name(nodes) is None,
        0 <= q < all_aliases(nodes).len(),
    ensures
        index_named(merged_subs(nodes), all_aliases(nodes)[q].0) matches Some(a)
            && index_named(merged_subs(nodes), all_aliases(nodes)[q].1) matches Some(t)
            && merged_subs(nodes)[a].target == Some(t as u32)
            && merged_subs(nodes)[a].name@ == all_aliases(nodes)[q].0
            && merged_subs(nodes)[t].name@ == all_aliases(nodes)[q].1,
{
    reveal(merged_subs);
    lemma_sorted_strict(nodes);
    let s = sorted_subs(nodes);
    let all = all_subs(nodes);
    let r = sort_order(names_of(all));
    assert(no_repeats(names_of(all))) by {
        assert forall|i: int, j: int| 0 <= i < j < names_of(all).len() implies names_of(all)[i]
            != names_of(all)[j] by {
            assert(lists(r, i));
            assert(lists(r, j));
            let ki = choose|k: int| 0 <= k < r.len() && r[k] == i;
            let kj = choose|k: int| 0 <= k < r.len() && r[k] == j;
            assert(names_of(s)[ki] == names_of(all)[i]);
            assert(names_of(s)[kj] == names_of(all)[j]);
            crate::order::lemma_lt_irreflexive(names_of(all)[i]);
            if ki < kj {
                assert(seq_lt(names_of(s)[ki], names_of(s)[kj]));
            } else {
                assert(seq_lt(names_of(s)[kj], names_of(s)[ki]));
            }
        }
    }
    lemma_all_aliases_facts(nodes);
    let maps = all_aliases(nodes);
    lemma_merge_sorted_and_complete(nodes);
    assert forall|x: Seq<char>| names_of(all).contains(x) implies names_of(s).contains(x) by {
        let i = choose|i: int| 0 <= i < names_of(all).len() && names_of(all)[i] == x;
        assert(all[i].name@ == x);
        lemma_apply_names(s, maps);
        assert(names_of(merged_subs(nodes)).contains(all[i].name@));
    }
    assert(names_of(s).contains(maps[q].0));
    assert(names_of(s).contains(maps[q].1));
    lemma_index_named_found(s, maps[q].0);
    lemma_index_named_found(s, maps[q].1);
    assert forall|x: int, y: int| 0 <= x < y < maps.len() implies (#[trigger] maps[x]).0 != (#[trigger] maps[y]).0 by {
        assert(alias_names(maps)[x] == maps[x].0 && alias_names(maps)[y] == maps[y].0);
    }
    lemma_apply_targets(s, maps, q, index_named(s, maps[q].0)->0, index_named(s, maps[q].1)->0);
    lemma_apply_names(s, maps);
    lemma_index_by_names(merged_subs(nodes), s, maps[q].0);
    lemma_index_by_names(merged_subs(nodes), s, maps[q].1);
    let a = index_named(s, maps[q].0)->0;
    let t = index_named(s, maps[q].1)->0;
    assert(names_of(merged_subs(nodes))[a] == names_of(s)[a]);
    assert(names_of(merged_subs(nodes))[t] == names_of(s)[t]);
}

} // verus!
