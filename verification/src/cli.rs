use vstd::prelude::*;
use crate::cache::{CommandNode, OptionItem};
use crate::seqs::{first_where, lemma_first_where_agree, lemma_first_where_found, lemma_first_where_none, lemma_first_where_some};
use crate::text::{chars_of, find_char, first_index_of, string_from_range, strings_view};

verus! {

/// A parsed option value: a flag that was given, or the values collected for an option that
/// takes values (appended each time the option occurs).
pub enum ParsedValue {
    Flag,
    Values(Vec<String>),
}

/// Mathematical value of a [`ParsedValue`].
pub enum ParsedV {
    Flag,
    Values(Seq<Seq<char>>),
}

impl View for ParsedValue {
    type V = ParsedV;

    open spec fn view(&self) -> ParsedV {
        match self {
            ParsedValue::Flag => ParsedV::Flag,
            ParsedValue::Values(v) => ParsedV::Values(strings_view(v@)),
        }
    }
}

/// The parsed options as an association list from label to value, in first-insertion order.
pub open spec fn entries_view(e: Seq<(String, ParsedValue)>) -> Seq<(Seq<char>, ParsedV)> {
    e.map_values(|p: (String, ParsedValue)| (p.0@, p.1@))
}

/// Position of the entry for label `k`.
pub open spec fn key_index(e: Seq<(Seq<char>, ParsedV)>, k: Seq<char>) -> Option<int> {
    first_where(e.len() as int, key_pred(e, k))
}

/// Whether entry `i` has label `k`.
pub open spec fn key_pred(e: Seq<(Seq<char>, ParsedV)>, k: Seq<char>) -> spec_fn(int) -> bool {
    |i: int| e[i].0 == k
}

/// Records that the flag labelled `k` was given.
pub open spec fn set_flag(e: Seq<(Seq<char>, ParsedV)>, k: Seq<char>) -> Seq<(Seq<char>, ParsedV)> {
    match key_index(e, k) {
        Some(i) => e.update(i, (k, ParsedV::Flag)),
        None => e.push((k, ParsedV::Flag)),
    }
}

/// Appends `v` to the values of the option labelled `k` (an entry that already holds a flag
/// is left as it is).
pub open spec fn push_value(e: Seq<(Seq<char>, ParsedV)>, k: Seq<char>, v: Seq<char>) -> Seq<(Seq<char>, ParsedV)> {
    match key_index(e, k) {
        Some(i) => match e[i].1 {
            ParsedV::Values(vs) => e.update(i, (k, ParsedV::Values(vs.push(v)))),
            ParsedV::Flag => e,
        },
        None => e.push((k, ParsedV::Values(seq![v]))),
    }
}

/// Records a flag under each of the labels, in order.
pub open spec fn flag_labels(e: Seq<(Seq<char>, ParsedV)>, labels: Seq<String>) -> Seq<(Seq<char>, ParsedV)>
    decreases labels.len(),
{
    if labels.len() == 0 {
        e
    } else {
        set_flag(flag_labels(e, labels.drop_last()), labels.last()@)
    }
}

/// Appends `v` under each of the labels, in order.
pub open spec fn push_labels(e: Seq<(Seq<char>, ParsedV)>, labels: Seq<String>, v: Seq<char>) -> Seq<(Seq<char>, ParsedV)>
    decreases labels.len(),
{
    if labels.len() == 0 {
        e
    } else {
        push_value(push_labels(e, labels.drop_last(), v), labels.last()@, v)
    }
}

fn entry_index(opts: &Vec<(String, ParsedValue)>, k: &String) -> (r: Option<usize>)
    ensures
        r matches Some(i) ==> i < opts@.len() && key_index(entries_view(opts@), k@) == Some(i as int),
        r is None ==> key_index(entries_view(opts@), k@) is None,
{
    let ghost e = entries_view(opts@);
    let ghost p = key_pred(e, k@);
    for i in 0..opts.len()
        invariant
            e == entries_view(opts@),
            p == key_pred(e, k@),
            forall|j: int| 0 <= j < i ==> !#[trigger] p(j),
    {
        if opts[i].0 == *k {
            proof {
                lemma_first_where_found(e.len() as int, p, i as int);
            }
            return Some(i);
        }
    }
    proof {
        lemma_first_where_none(e.len() as int, p);
    }
    None
}

fn set_flag_exec(opts: &mut Vec<(String, ParsedValue)>, k: &String)
    ensures
        entries_view(final(opts)@) == set_flag(entries_view(old(opts)@), k@),
{
    let ghost e0 = entries_view(opts@);
    match entry_index(opts, k) {
        Some(i) => {
            opts.set(i, (k.clone(), ParsedValue::Flag));
            assert(entries_view(opts@) =~= e0.update(i as int, (k@, ParsedV::Flag)));
        },
        None => {
            opts.push((k.clone(), ParsedValue::Flag));
            assert(entries_view(opts@) =~= e0.push((k@, ParsedV::Flag)));
        },
    }
}

fn push_value_exec(opts: &mut Vec<(String, ParsedValue)>, k: &String, v: &String)
    ensures
        entries_view(final(opts)@) == push_value(entries_view(old(opts)@), k@, v@),
{
    let ghost e0 = entries_view(opts@);
    proof {
        lemma_first_where_some(e0.len() as int, key_pred(e0, k@));
    }
    match entry_index(opts, k) {
        Some(i) => {
            let mut tmp = (String::new(), ParsedValue::Flag);
            opts.set_and_swap(i, &mut tmp);
            let (key, val) = tmp;
            match val {
                ParsedValue::Values(vs) => {
                    let mut vs = vs;
                    let ghost vs0 = vs@;
                    vs.push(v.clone());
                    assert(strings_view(vs@) =~= strings_view(vs0).push(v@));
                    assert(e0[i as int].0 == k@);
                    assert(key@ == k@);
                    opts.set(i, (key, ParsedValue::Values(vs)));
                    assert(entries_view(opts@) =~= push_value(e0, k@, v@));
                },
                ParsedValue::Flag => {
                    opts.set(i, (key, ParsedValue::Flag));
                    assert(entries_view(opts@) =~= e0);
                },
            }
        },
        None => {
            let mut vs: Vec<String> = Vec::new();
            vs.push(v.clone());
            assert(strings_view(vs@) =~= seq![v@]);
            opts.push((k.clone(), ParsedValue::Values(vs)));
            assert(entries_view(opts@) =~= e0.push((k@, ParsedV::Values(seq![v@]))));
        },
    }
}

fn flag_labels_exec(opts: &mut Vec<(String, ParsedValue)>, labels: &Vec<String>)
    ensures
        entries_view(final(opts)@) == flag_labels(entries_view(old(opts)@), labels@),
{
    let ghost e0 = entries_view(opts@);
    for li in 0..labels.len()
        invariant
            entries_view(opts@) == flag_labels(e0, labels@.take(li as int)),
    {
        set_flag_exec(opts, &labels[li]);
        assert(labels@.take(li + 1).drop_last() == labels@.take(li as int));
    }
    assert(labels@.take(labels.len() as int) == labels@);
}

fn push_labels_exec(opts: &mut Vec<(String, ParsedValue)>, labels: &Vec<String>, v: &String)
    ensures
        entries_view(final(opts)@) == push_labels(entries_view(old(opts)@), labels@, v@),
{
    let ghost e0 = entries_view(opts@);
    for li in 0..labels.len()
        invariant
            entries_view(opts@) == push_labels(e0, labels@.take(li as int), v@),
    {
        push_value_exec(opts, &labels[li], v);
        assert(labels@.take(li + 1).drop_last() == labels@.take(li as int));
    }
    assert(labels@.take(labels.len() as int) == labels@);
}

/// An option that still takes value tokens: its index among the current node's options, how
/// many value tokens it takes, and how many it has taken.
#[derive(Clone, Copy)]
pub struct Waiting {
    pub opt: usize,
    pub cap: u32,
    pub used: u32,
}

/// State of the command-line scan.
pub struct CliState {
    /// Indices of the subcommands followed from the root.
    pub path: Seq<usize>,
    pub waiting: Option<Waiting>,
    pub options: Seq<(Seq<char>, ParsedV)>,
    /// Positional tokens the current node may still consume.
    pub remaining: u32,
    /// Positional tokens consumed by the current node.
    pub positionals: Seq<Seq<char>>,
    /// Whether `--` was seen.
    pub no_more_options: bool,
}

/// The node reached from `root` by following `path`.
pub open spec fn node_at(root: CommandNode, path: Seq<usize>) -> CommandNode
    decreases path.len(),
{
    if path.len() == 0 {
        root
    } else {
        node_at(root, path.drop_last()).subcommands@[path.last() as int]
    }
}

/// Whether every step of `path` names an existing subcommand.
pub open spec fn valid_path(root: CommandNode, path: Seq<usize>) -> bool
    decreases path.len(),
{
    path.len() == 0 || (valid_path(root, path.drop_last()) && path.last() < node_at(
        root,
        path.drop_last(),
    ).subcommands@.len())
}

/// Whether the option has label `l`.
pub open spec fn has_label(o: OptionItem, l: Seq<char>) -> bool {
    exists|k: int| 0 <= k < o.labels@.len() && #[trigger] o.labels@[k]@ == l
}

/// The first option of `node` with label `l`.
pub open spec fn option_for(node: CommandNode, l: Seq<char>) -> Option<int> {
    first_where(node.options@.len() as int, label_pred(node, l))
}

/// Whether option `i` of `node` has label `l`.
pub open spec fn label_pred(node: CommandNode, l: Seq<char>) -> spec_fn(int) -> bool {
    |i: int| has_label(node.options@[i], l)
}

/// The first subcommand of `node` named `w`.
pub open spec fn sub_named(node: CommandNode, w: Seq<char>) -> Option<int> {
    first_where(node.subcommands@.len() as int, name_pred(node, w))
}

/// Whether subcommand `i` of `node` is named `w`.
pub open spec fn name_pred(node: CommandNode, w: Seq<char>) -> spec_fn(int) -> bool {
    |i: int| node.subcommands@[i].name@ == w
}

/// The subcommand that `node.subcommands[i]` leads to: its alias target when that is a valid
/// sibling index, else itself.
pub open spec fn alias_target(node: CommandNode, i: int) -> int {
    match node.subcommands@[i].target {
        Some(t) => if (t as int) < node.subcommands@.len() {
            t as int
        } else {
            i
        },
        None => i,
    }
}

/// What [`sub_named`] finds is the first subcommand with that name.
pub proof fn lemma_sub_named(node: CommandNode, w: Seq<char>)
    ensures
        sub_named(node, w) matches Some(i) ==> 0 <= i < node.subcommands@.len()
            && node.subcommands@[i].name@ == w
            && forall|j: int| 0 <= j < i ==> node.subcommands@[j].name@ != w,
        sub_named(node, w) is None ==> forall|j: int|
            0 <= j < node.subcommands@.len() ==> node.subcommands@[j].name@ != w,
{
    let p = name_pred(node, w);
    lemma_first_where_some(node.subcommands@.len() as int, p);
    if let Some(i) = sub_named(node, w) {
        assert(p(i));
        assert forall|j: int| 0 <= j < i implies node.subcommands@[j].name@ != w by {
            assert(!p(j));
        }
    } else {
        assert forall|j: int| 0 <= j < node.subcommands@.len() implies node.subcommands@[j].name@ != w by {
            assert(!p(j));
        }
    }
}

/// What [`option_for`] finds is the first option with that label.
pub proof fn lemma_option_for(node: CommandNode, l: Seq<char>)
    ensures
        option_for(node, l) matches Some(i) ==> 0 <= i < node.options@.len()
            && has_label(node.options@[i], l)
            && forall|j: int| 0 <= j < i ==> !has_label(node.options@[j], l),
        option_for(node, l) is None ==> forall|j: int|
            0 <= j < node.options@.len() ==> !has_label(node.options@[j], l),
{
    let p = label_pred(node, l);
    lemma_first_where_some(node.options@.len() as int, p);
    if let Some(i) = option_for(node, l) {
        assert(p(i));
        assert forall|j: int| 0 <= j < i implies !has_label(node.options@[j], l) by {
            assert(!p(j));
        }
    } else {
        assert forall|j: int| 0 <= j < node.options@.len() implies !has_label(node.options@[j], l) by {
            assert(!p(j));
        }
    }
}

/// An option token split at its first `=` into label and attached value.
pub open spec fn split_label(w: Seq<char>) -> (Seq<char>, Option<Seq<char>>) {
    match first_index_of(w, '=') {
        Some(i) => (w.take(i), Some(w.skip(i + 1))),
        None => (w, None),
    }
}

pub open spec fn is_double_dash(w: Seq<char>) -> bool {
    w.len() == 2 && w[0] == '-' && w[1] == '-'
}

/// The scan state before any token.
pub open spec fn init_state(root: CommandNode) -> CliState {
    CliState {
        path: seq![],
        waiting: None,
        options: seq![],
        remaining: root.args_count,
        positionals: seq![],
        no_more_options: false,
    }
}

/// Handles a token that is neither a known option label nor a value of a waiting option:
/// `--`, a positional token, a subcommand name, or a token that is ignored.
pub open spec fn step_rest(root: CommandNode, s: CliState, w: Seq<char>) -> CliState {
    let node = node_at(root, s.path);
    if is_double_dash(w) {
        CliState { no_more_options: true, ..s }
    } else if s.remaining > 0 {
        CliState { positionals: s.positionals.push(w), remaining: (s.remaining - 1) as u32, ..s }
    } else {
        match sub_named(node, w) {
            Some(i) => {
                let j = alias_target(node, i);
                CliState {
                    path: s.path.push(j as usize),
                    waiting: None,
                    remaining: node.subcommands@[j].args_count,
                    positionals: seq![],
                    ..s
                }
            },
            None => s,
        }
    }
}

/// One token of the scan.
pub open spec fn step(root: CommandNode, s: CliState, w: Seq<char>) -> CliState {
    let node = node_at(root, s.path);
    let (label, attached) = split_label(w);
    if !s.no_more_options && w.len() > 0 && w[0] == '-' && option_for(node, label) is Some {
        let oi = option_for(node, label).unwrap();
        let opt = node.options@[oi];
        if opt.args_count == 0 {
            CliState { waiting: None, options: flag_labels(s.options, opt.labels@), ..s }
        } else if attached is Some {
            CliState {
                waiting: None,
                options: push_labels(s.options, opt.labels@, attached.unwrap()),
                ..s
            }
        } else {
            CliState {
                waiting: Some(Waiting { opt: oi as usize, cap: opt.args_count, used: 0 }),
                ..s
            }
        }
    } else if s.waiting is Some && s.waiting.unwrap().used < s.waiting.unwrap().cap {
        let wt = s.waiting.unwrap();
        let opt = node.options@[wt.opt as int];
        let used = (wt.used + 1) as u32;
        CliState {
            options: push_labels(s.options, opt.labels@, w),
            waiting: if used >= wt.cap {
                None
            } else {
                Some(Waiting { opt: wt.opt, cap: wt.cap, used })
            },
            ..s
        }
    } else {
        step_rest(root, CliState { waiting: None, ..s }, w)
    }
}

/// The scan state after the given tokens.
pub open spec fn run(root: CommandNode, words: Seq<Seq<char>>) -> CliState
    decreases words.len(),
{
    if words.len() == 0 {
        init_state(root)
    } else {
        step(root, run(root, words.drop_last()), words.last())
    }
}

/// Invariant of the scan: the path leads to a node, a waiting option exists in that node and
/// still has room, and the consumed and remaining positional tokens add up to the node's count.
pub open spec fn state_wf(root: CommandNode, s: CliState) -> bool {
    &&& valid_path(root, s.path)
    &&& s.waiting matches Some(w) ==> w.opt < node_at(root, s.path).options@.len() && w.used < w.cap
    &&& s.positionals.len() + s.remaining == node_at(root, s.path).args_count
}

proof fn lemma_step_rest_wf(root: CommandNode, t: CliState, w: Seq<char>)
    requires
        state_wf(root, t),
        t.waiting is None,
    ensures
        state_wf(root, step_rest(root, t, w)),
{
    let node = node_at(root, t.path);
    if !is_double_dash(w) && t.remaining == 0 {
        lemma_sub_named(node, w);
        if let Some(i) = sub_named(node, w) {
            let j = alias_target(node, i);
            let p2 = t.path.push(j as usize);
            assert(p2.drop_last() == t.path);
            assert(node.subcommands.len() == node.subcommands@.len());
            assert((j as usize) as int == j);
            assert(node_at(root, p2) == node.subcommands@[j]);
        }
    }
}

proof fn lemma_step_wf(root: CommandNode, s: CliState, w: Seq<char>)
    requires
        state_wf(root, s),
    ensures
        state_wf(root, step(root, s, w)),
{
    let node = node_at(root, s.path);
    let (label, attached) = split_label(w);
    lemma_option_for(node, label);
    if !s.no_more_options && w.len() > 0 && w[0] == '-' && option_for(node, label) is Some {
    } else if s.waiting is Some && s.waiting.unwrap().used < s.waiting.unwrap().cap {
    } else {
        lemma_step_rest_wf(root, CliState { waiting: None, ..s }, w);
    }
}

proof fn lemma_dash_no_waiting(root: CommandNode, words: Seq<Seq<char>>)
    ensures
        run(root, words).no_more_options ==> run(root, words).waiting is None,
    decreases words.len(),
{
    if words.len() > 0 {
        lemma_dash_no_waiting(root, words.drop_last());
    }
}

/// After a `--` that the scan takes as the end of options, no later token is read as an
/// option or as an option's value: the recorded options stay as they were, and nothing waits
/// for a value.
pub proof fn lemma_double_dash_ends_options(root: CommandNode, words: Seq<Seq<char>>, rest: Seq<Seq<char>>)
    requires
        run(root, words).no_more_options,
    ensures
        run(root, words + rest).no_more_options,
        run(root, words + rest).options == run(root, words).options,
        run(root, words + rest).waiting is None,
    decreases rest.len(),
{
    lemma_dash_no_waiting(root, words);
    if rest.len() > 0 {
        lemma_double_dash_ends_options(root, words, rest.drop_last());
        assert((words + rest).drop_last() =~= words + rest.drop_last());
        assert((words + rest).last() == rest.last());
    } else {
        assert(words + rest =~= words);
    }
}

/// The scan keeps its invariant.
pub proof fn lemma_run_wf(root: CommandNode, words: Seq<Seq<char>>)
    ensures
        state_wf(root, run(root, words)),
    decreases words.len(),
{
    if words.len() > 0 {
        lemma_run_wf(root, words.drop_last());
        lemma_step_wf(root, run(root, words.drop_last()), words.last());
    }
}


/// The scan after `words + rest` depends on `words` only through the scan after `words`.
#[verifier::spinoff_prover]
#[verifier::rlimit(40)]
proof fn lemma_run_same_start(root: CommandNode, a: Seq<Seq<char>>, b: Seq<Seq<char>>, rest: Seq<Seq<char>>)
    requires
        run(root, a) == run(root, b),
    ensures
        run(root, a + rest) == run(root, b + rest),
    decreases rest.len(),
{
    if rest.len() == 0 {
        assert(a + rest =~= a);
        assert(b + rest =~= b);
    } else {
        lemma_run_same_start(root, a, b, rest.drop_last());
        assert((a + rest).drop_last() =~= a + rest.drop_last());
        assert((b + rest).drop_last() =~= b + rest.drop_last());
        assert((a + rest).last() == rest.last());
        assert((b + rest).last() == rest.last());
    }
}

/// Whether a subcommand name cannot be taken for an option label or for `--`.
pub open spec fn plain_name(w: Seq<char>) -> bool {
    w.len() == 0 || w[0] != '-'
}

/// An alias completes as the command it stands for: where the current command takes no more
/// positional tokens and no option waits for a value, typing the name of subcommand `i`, an
/// alias of subcommand `t`, leads to the same scan as typing the name of `t`, whatever
/// follows. (Each name must find its own subcommand first, and the target must not itself be
/// an alias.)
pub proof fn lemma_alias_completes_as_target(root: CommandNode, words: Seq<Seq<char>>, i: int, rest: Seq<Seq<char>>)
    requires
        ({
            let s = run(root, words);
            let node = node_at(root, s.path);
            &&& s.waiting is None
            &&& s.remaining == 0
            &&& 0 <= i < node.subcommands@.len()
            &&& sub_named(node, node.subcommands@[i].name@) == Some(i)
            &&& plain_name(node.subcommands@[i].name@)
            &&& node.subcommands@[i].target matches Some(t) && (t as int) < node.subcommands@.len()
                && sub_named(node, node.subcommands@[t as int].name@) == Some(t as int)
                && node.subcommands@[t as int].target is None
                && plain_name(node.subcommands@[t as int].name@)
        }),
    ensures
        ({
            let node = node_at(root, run(root, words).path);
            let t = node.subcommands@[i].target.unwrap() as int;
            run(root, words.push(node.subcommands@[i].name@) + rest)
                == run(root, words.push(node.subcommands@[t].name@) + rest)
        }),
{
    let s = run(root, words);
    let node = node_at(root, s.path);
    let t = node.subcommands@[i].target.unwrap() as int;
    let a = node.subcommands@[i].name@;
    let b = node.subcommands@[t].name@;
    assert(words.push(a).drop_last() =~= words);
    assert(words.push(b).drop_last() =~= words);
    assert(alias_target(node, i) == t);
    assert(alias_target(node, t) == t);
    assert(run(root, words.push(a)) == step(root, s, a));
    assert(run(root, words.push(b)) == step(root, s, b));
    assert(step(root, s, a) == step_rest(root, CliState { waiting: None, ..s }, a));
    assert(step(root, s, b) == step_rest(root, CliState { waiting: None, ..s }, b));
    lemma_run_same_start(root, words.push(a), words.push(b), rest);
}

/// What the parsed options hold under label `k`.
pub open spec fn lookup(e: Seq<(Seq<char>, ParsedV)>, k: Seq<char>) -> Option<ParsedV> {
    match key_index(e, k) {
        Some(i) => Some(e[i].1),
        None => None,
    }
}

/// What a label holds after one more value is recorded under it: a first value, or the value
/// appended to those before; a flag stays a flag.
pub open spec fn after_push(v: Option<ParsedV>, x: Seq<char>) -> Option<ParsedV> {
    match v {
        None => Some(ParsedV::Values(seq![x])),
        Some(ParsedV::Values(vs)) => Some(ParsedV::Values(vs.push(x))),
        Some(ParsedV::Flag) => Some(ParsedV::Flag),
    }
}

/// The views of some labels.
pub open spec fn label_views(labels: Seq<String>) -> Seq<Seq<char>> {
    labels.map_values(|l: String| l@)
}

proof fn lemma_key_index_after_update(e: Seq<(Seq<char>, ParsedV)>, i: int, x: (Seq<char>, ParsedV), k2: Seq<char>)
    requires
        0 <= i < e.len(),
        x.0 == e[i].0,
    ensures
        key_index(e.update(i, x), k2) == key_index(e, k2),
{
    let e2 = e.update(i, x);
    assert forall|j: int| 0 <= j < e.len() implies #[trigger] key_pred(e2, k2)(j) == key_pred(e, k2)(j) by {
        if j != i {
            assert(e2[j] == e[j]);
        }
    }
    lemma_first_where_agree(e.len() as int, key_pred(e2, k2), key_pred(e, k2));
}

proof fn lemma_key_index_after_push(e: Seq<(Seq<char>, ParsedV)>, x: (Seq<char>, ParsedV), k2: Seq<char>)
    ensures
        key_index(e.push(x), k2) == (match key_index(e, k2) {
            Some(j) => Some(j),
            None => if x.0 == k2 {
                Some(e.len() as int)
            } else {
                None
            },
        }),
{
    let e2 = e.push(x);
    let p = key_pred(e, k2);
    let p2 = key_pred(e2, k2);
    lemma_first_where_some(e.len() as int, p);
    assert forall|j: int| 0 <= j < e.len() implies #[trigger] p2(j) == p(j) by {
        assert(e2[j] == e[j]);
    }
    match key_index(e, k2) {
        Some(j) => {
            lemma_first_where_found(e2.len() as int, p2, j);
        },
        None => {
            if x.0 == k2 {
                lemma_first_where_found(e2.len() as int, p2, e.len() as int);
            } else {
                assert forall|j: int| 0 <= j < e2.len() implies !#[trigger] p2(j) by {
                    if j < e.len() {
                        assert(!p(j));
                    }
                }
                lemma_first_where_none(e2.len() as int, p2);
            }
        },
    }
}

/// Recording a value under label `k` changes what `k` holds as [`after_push`] says, and
/// nothing else.
proof fn lemma_push_value_lookup(e: Seq<(Seq<char>, ParsedV)>, k: Seq<char>, x: Seq<char>, k2: Seq<char>)
    ensures
        lookup(push_value(e, k, x), k2) == if k2 == k {
            after_push(lookup(e, k), x)
        } else {
            lookup(e, k2)
        },
{
    lemma_first_where_some(e.len() as int, key_pred(e, k));
    lemma_first_where_some(e.len() as int, key_pred(e, k2));
    match key_index(e, k) {
        Some(i) => {
            match e[i].1 {
                ParsedV::Values(vs) => {
                    lemma_key_index_after_update(e, i, (k, ParsedV::Values(vs.push(x))), k2);
                    if k2 != k {
                        if let Some(j) = key_index(e, k2) {
                            assert(e[j].0 == k2);
                            assert(j != i);
                        }
                    }
                },
                ParsedV::Flag => {},
            }
        },
        None => {
            lemma_key_index_after_push(e, (k, ParsedV::Values(seq![x])), k2);
            if let Some(j) = key_index(e, k2) {
                assert(e.push((k, ParsedV::Values(seq![x])))[j] == e[j]);
            }
        },
    }
}

/// Setting the flag under label `k` makes `k` hold a flag, and changes nothing else.
proof fn lemma_set_flag_lookup(e: Seq<(Seq<char>, ParsedV)>, k: Seq<char>, k2: Seq<char>)
    ensures
        lookup(set_flag(e, k), k2) == if k2 == k {
            Some(ParsedV::Flag)
        } else {
            lookup(e, k2)
        },
{
    lemma_first_where_some(e.len() as int, key_pred(e, k));
    lemma_first_where_some(e.len() as int, key_pred(e, k2));
    match key_index(e, k) {
        Some(i) => {
            lemma_key_index_after_update(e, i, (k, ParsedV::Flag), k2);
            if k2 != k {
                if let Some(j) = key_index(e, k2) {
                    assert(e[j].0 == k2);
                    assert(j != i);
                }
            }
        },
        None => {
            lemma_key_index_after_push(e, (k, ParsedV::Flag), k2);
            if let Some(j) = key_index(e, k2) {
                assert(e.push((k, ParsedV::Flag))[j] == e[j]);
            }
        },
    }
}

/// An option's labels share its values: where all of an option's (distinct) labels hold the
/// same before a value is recorded, they all hold the same after it, the value appended; every
/// other label is left as it was.
pub proof fn lemma_option_labels_share_values(
    e: Seq<(Seq<char>, ParsedV)>,
    labels: Seq<String>,
    x: Seq<char>,
    v: Option<ParsedV>,
    k2: Seq<char>,
)
    requires
        crate::seqs::no_repeats(label_views(labels)),
        forall|m: int| 0 <= m < labels.len() ==> lookup(e, #[trigger] labels[m]@) == v,
    ensures
        forall|m: int| 0 <= m < labels.len() ==> lookup(push_labels(e, labels, x), #[trigger] labels[m]@) == after_push(v, x),
        !label_views(labels).contains(k2) ==> lookup(push_labels(e, labels, x), k2) == lookup(e, k2),
    decreases labels.len(),
{
    if labels.len() > 0 {
        let init = labels.drop_last();
        let last = labels.last()@;
        assert(crate::seqs::no_repeats(label_views(init))) by {
            assert forall|i: int, j: int| 0 <= i < j < label_views(init).len() implies label_views(init)[i] != label_views(init)[j] by {
                assert(label_views(init)[i] == label_views(labels)[i]);
                assert(label_views(init)[j] == label_views(labels)[j]);
            }
        }
        assert(!label_views(init).contains(last)) by {
            if label_views(init).contains(last) {
                let w = choose|w: int| 0 <= w < label_views(init).len() && label_views(init)[w] == last;
                assert(label_views(labels)[w] == label_views(init)[w]);
                assert(label_views(labels)[labels.len() - 1] == last);
            }
        }
        assert(lookup(e, labels[labels.len() - 1]@) == v);
        lemma_option_labels_share_values(e, init, x, v, last);
        lemma_option_labels_share_values(e, init, x, v, k2);
        let mid = push_labels(e, init, x);
        assert forall|m: int| 0 <= m < labels.len() implies lookup(push_labels(e, labels, x), #[trigger] labels[m]@)
            == after_push(v, x) by {
            lemma_push_value_lookup(mid, last, x, labels[m]@);
            if m < labels.len() - 1 {
                assert(init[m] == labels[m]);
                assert(lookup(e, init[m]@) == v);
                lemma_option_labels_share_values(e, init, x, v, labels[m]@);
                assert(label_views(labels)[m] == labels[m]@);
                assert(label_views(labels)[labels.len() - 1] == last);
                assert(labels[m]@ != last);
            }
        }
        lemma_push_value_lookup(mid, last, x, k2);
        if !label_views(labels).contains(k2) {
            assert(label_views(labels)[labels.len() - 1] == last);
            assert(k2 != last);
            if label_views(init).contains(k2) {
                let w = choose|w: int| 0 <= w < label_views(init).len() && label_views(init)[w] == k2;
                assert(label_views(labels)[w] == label_views(init)[w]);
            }
        }
    }
}

/// An option given as a flag is recorded as a flag under every one of its labels; every
/// other label is left as it was.
#[verifier::spinoff_prover]
#[verifier::rlimit(40)]
pub proof fn lemma_option_labels_share_flag(e: Seq<(Seq<char>, ParsedV)>, labels: Seq<String>, k2: Seq<char>)
    ensures
        forall|m: int| 0 <= m < labels.len() ==> lookup(flag_labels(e, labels), #[trigger] labels[m]@) == Some(ParsedV::Flag),
        !label_views(labels).contains(k2) ==> lookup(flag_labels(e, labels), k2) == lookup(e, k2),
    decreases labels.len(),
{
    if labels.len() > 0 {
        let init = labels.drop_last();
        let last = labels.last()@;
        let mid = flag_labels(e, init);
        lemma_option_labels_share_flag(e, init, k2);
        assert forall|m: int| 0 <= m < labels.len() implies lookup(flag_labels(e, labels), #[trigger] labels[m]@)
            == Some(ParsedV::Flag) by {
            lemma_set_flag_lookup(mid, last, labels[m]@);
            if m < labels.len() - 1 && labels[m]@ != last {
                assert(init[m] == labels[m]);
                lemma_option_labels_share_flag(e, init, labels[m]@);
            }
        }
        lemma_set_flag_lookup(mid, last, k2);
        if !label_views(labels).contains(k2) {
            assert(label_views(labels)[labels.len() - 1] == last);
            if label_views(init).contains(k2) {
                let w = choose|w: int| 0 <= w < label_views(init).len() && label_views(init)[w] == k2;
                assert(label_views(labels)[w] == label_views(init)[w]);
            }
        }
    }
}

/// While options are read, a token that names an option of the current command is read as
/// that option, never as the value of an option waiting for one: a flag is recorded under all
/// its labels, an attached value is recorded under all its labels, and otherwise the option
/// waits for its values.
pub proof fn lemma_option_token_not_a_value(root: CommandNode, s: CliState, w: Seq<char>)
    requires
        !s.no_more_options,
        w.len() > 0,
        w[0] == '-',
        option_for(node_at(root, s.path), split_label(w).0) is Some,
    ensures
        ({
            let node = node_at(root, s.path);
            let oi = option_for(node, split_label(w).0).unwrap();
            let opt = node.options@[oi];
            let r = step(root, s, w);
            &&& r.path == s.path
            &&& r.positionals == s.positionals
            &&& if opt.args_count == 0 {
                r.options == flag_labels(s.options, opt.labels@) && r.waiting is None
            } else if split_label(w).1 is Some {
                r.options == push_labels(s.options, opt.labels@, split_label(w).1.unwrap()) && r.waiting is None
            } else {
                r.options == s.options && r.waiting == Some(Waiting { opt: oi as usize, cap: opt.args_count, used: 0 })
            }
        }),
{
}

/// Whether a token would be read as an option of `node` (it starts with `-` and its label,
/// before any `=`, names one of the node's options).
pub open spec fn is_option_token(node: CommandNode, w: Seq<char>) -> bool {
    w.len() > 0 && w[0] == '-' && option_for(node, split_label(w).0) is Some
}

/// An option that takes `n` values takes the tokens that follow it, up to `n` of them: after
/// the option's label and `k <= n` tokens that are not themselves options, every label of the
/// option holds exactly those `k` tokens, in order; the option still waits for a value while
/// `k < n` and is done once `k == n`; and the scan stays at the same command.
proof fn lemma_step_feeds_value(root: CommandNode, t: CliState, x: Seq<char>)
    requires
        t.waiting matches Some(wt) && wt.used < wt.cap,
        !is_option_token(node_at(root, t.path), x),
    ensures
        ({
            let wt = t.waiting.unwrap();
            let used = (wt.used + 1) as u32;
            step(root, t, x) == CliState {
                options: push_labels(t.options, node_at(root, t.path).options@[wt.opt as int].labels@, x),
                waiting: if used >= wt.cap {
                    None
                } else {
                    Some(Waiting { opt: wt.opt, cap: wt.cap, used })
                },
                ..t
            }
        }),
{
}

proof fn lemma_step_option_waits(root: CommandNode, s: CliState, label: Seq<char>)
    requires
        !s.no_more_options,
        label.len() > 0,
        label[0] == '-',
        forall|i: int| 0 <= i < label.len() ==> label[i] != '=',
        option_for(node_at(root, s.path), label) is Some,
        node_at(root, s.path).options@[option_for(node_at(root, s.path), label).unwrap()].args_count > 0,
    ensures
        ({
            let node = node_at(root, s.path);
            let oi = option_for(node, label).unwrap();
            step(root, s, label) == CliState {
                waiting: Some(Waiting { opt: oi as usize, cap: node.options@[oi].args_count, used: 0 }),
                ..s
            }
        }),
{
    assert(first_index_of(label, '=') is None);
    assert(split_label(label) == (label, None::<Seq<char>>));
}

/// The scan state after the given tokens, starting from state `s`.
pub open spec fn run_from(root: CommandNode, s: CliState, words: Seq<Seq<char>>) -> CliState
    decreases words.len(),
{
    if words.len() == 0 {
        s
    } else {
        step(root, run_from(root, s, words.drop_last()), words.last())
    }
}

#[verifier::spinoff_prover]
proof fn lemma_run_then(root: CommandNode, a: Seq<Seq<char>>, b: Seq<Seq<char>>)
    ensures
        run(root, a + b) == run_from(root, run(root, a), b),
    decreases b.len(),
{
    if b.len() == 0 {
        assert(a + b =~= a);
    } else {
        lemma_run_then(root, a, b.drop_last());
        assert((a + b).drop_last() =~= a + b.drop_last());
        assert((a + b).last() == b.last());
    }
}

#[verifier::spinoff_prover]
proof fn lemma_push_labels_values(e: Seq<(Seq<char>, ParsedV)>, labels: Seq<String>, prev: Seq<Seq<char>>, x: Seq<char>)
    requires
        crate::seqs::no_repeats(label_views(labels)),
        forall|m: int| 0 <= m < labels.len() ==> lookup(e, #[trigger] labels[m]@) == (if prev.len() == 0 {
            None
        } else {
            Some(ParsedV::Values(prev))
        }),
    ensures
        forall|m: int| 0 <= m < labels.len() ==> lookup(push_labels(e, labels, x), #[trigger] labels[m]@) == Some(ParsedV::Values(prev.push(x))),
{
    let v0 = if prev.len() == 0 {
        None
    } else {
        Some(ParsedV::Values(prev))
    };
    lemma_option_labels_share_values(e, labels, x, v0, x);
    if prev.len() == 0 {
        assert(seq![x] =~= prev.push(x));
    }
}

#[verifier::spinoff_prover]
proof fn lemma_feed_values(root: CommandNode, t: CliState, labels: Seq<String>, vals: Seq<Seq<char>>)
    requires
        t.waiting matches Some(wt) && wt.used == 0 && 0 < wt.cap && vals.len() <= wt.cap
            && node_at(root, t.path).options@[wt.opt as int].labels@ == labels,
        crate::seqs::no_repeats(label_views(labels)),
        forall|m: int| 0 <= m < labels.len() ==> lookup(t.options, #[trigger] labels[m]@) is None,
        forall|k: int| 0 <= k < vals.len() ==> !is_option_token(node_at(root, t.path), #[trigger] vals[k]),
    ensures
        ({
            let wt = t.waiting.unwrap();
            let s2 = run_from(root, t, vals);
            &&& s2.path == t.path
            &&& s2.no_more_options == t.no_more_options
            &&& forall|m: int| 0 <= m < labels.len() ==> lookup(s2.options, #[trigger] labels[m]@) == (if vals.len() == 0 {
                None
            } else {
                Some(ParsedV::Values(vals))
            })
            &&& s2.waiting == (if vals.len() < wt.cap {
                Some(Waiting { opt: wt.opt, cap: wt.cap, used: vals.len() as u32 })
            } else {
                None
            })
        }),
    decreases vals.len(),
{
    if vals.len() > 0 {
        let prev = vals.drop_last();
        let x = vals.last();
        assert forall|k: int| 0 <= k < prev.len() implies !is_option_token(node_at(root, t.path), #[trigger] prev[k]) by {
            assert(prev[k] == vals[k]);
        }
        lemma_feed_values(root, t, labels, prev);
        let u = run_from(root, t, prev);
        assert(!is_option_token(node_at(root, t.path), vals[vals.len() - 1]));
        lemma_step_feeds_value(root, u, x);
        lemma_push_labels_values(u.options, labels, prev, x);
        assert(prev.push(x) =~= vals);
        let wt = t.waiting.unwrap();
        assert(prev.len() < wt.cap);
        assert(u.waiting == Some(Waiting { opt: wt.opt, cap: wt.cap, used: prev.len() as u32 }));
        assert((prev.len() as u32) as int == prev.len());
        assert((vals.len() as u32) as int == vals.len());
        assert(((prev.len() as u32) + 1) as u32 == vals.len() as u32);
    }
}

/// An option that takes `n` values takes the tokens that follow it, up to `n` of them: after
/// the option's label and `k <= n` tokens that are not themselves options, every label of the
/// option holds exactly those `k` tokens, in order; the option still waits for a value while
/// `k < n` and is done once `k == n`; and the scan stays at the same command.
#[verifier::spinoff_prover]
pub proof fn lemma_option_takes_its_values(root: CommandNode, words: Seq<Seq<char>>, label: Seq<char>, vals: Seq<Seq<char>>)
    requires
        !run(root, words).no_more_options,
        label.len() > 0,
        label[0] == '-',
        forall|i: int| 0 <= i < label.len() ==> label[i] != '=',
        option_for(node_at(root, run(root, words).path), label) is Some,
        ({
            let node = node_at(root, run(root, words).path);
            let o = node.options@[option_for(node, label).unwrap()];
            &&& 0 < o.args_count
            &&& vals.len() <= o.args_count
            &&& crate::seqs::no_repeats(label_views(o.labels@))
            &&& forall|m: int| 0 <= m < o.labels@.len() ==> lookup(run(root, words).options, #[trigger] o.labels@[m]@) is None
        }),
        forall|k: int| 0 <= k < vals.len() ==> !is_option_token(node_at(root, run(root, words).path), #[trigger] vals[k]),
    ensures
        ({
            let s = run(root, words);
            let node = node_at(root, s.path);
            let oi = option_for(node, label).unwrap();
            let o = node.options@[oi];
            let s2 = run(root, words.push(label) + vals);
            &&& s2.path == s.path
            &&& !s2.no_more_options
            &&& forall|m: int| 0 <= m < o.labels@.len() ==> lookup(s2.options, #[trigger] o.labels@[m]@) == (if vals.len() == 0 {
                None
            } else {
                Some(ParsedV::Values(vals))
            })
            &&& s2.waiting == (if vals.len() < o.args_count {
                Some(Waiting { opt: oi as usize, cap: o.args_count, used: vals.len() as u32 })
            } else {
                None
            })
        }),
{
    let s = run(root, words);
    let node = node_at(root, s.path);
    let oi = option_for(node, label).unwrap();
    let o = node.options@[oi];
    lemma_option_for(node, label);
    let a = words.push(label);
    assert(a.drop_last() =~= words);
    assert(a.last() == label);
    let t = run(root, a);
    lemma_run_then(root, words, seq![label]);
    assert(words + seq![label] =~= a);
    assert(seq![label].drop_last() =~= Seq::<Seq<char>>::empty());
    assert(t == step(root, s, label));
    lemma_step_option_waits(root, s, label);
    assert(oi < node.options@.len());
    assert(node.options@.len() == node.options.len());
    assert((oi as usize) as int == oi);
    lemma_run_then(root, a, vals);
    lemma_feed_values(root, t, o.labels@, vals);
}
} // verus!

verus! {

/// Every prefix of a valid path is valid, and the next step stays in range.
proof fn lemma_valid_path_prefix(root: CommandNode, path: Seq<usize>, k: int)
    requires
        valid_path(root, path),
        0 <= k < path.len(),
    ensures
        valid_path(root, path.take(k)),
        path[k] < node_at(root, path.take(k)).subcommands@.len(),
        node_at(root, path.take(k + 1)) == node_at(root, path.take(k)).subcommands@[path[k] as int],
    decreases path.len(),
{
    let t = path.take(k + 1);
    assert(t.drop_last() == path.take(k));
    if k + 1 == path.len() {
        assert(t == path);
    } else {
        lemma_valid_path_prefix(root, path.drop_last(), k);
        assert(path.drop_last().take(k) == path.take(k));
        assert(path.drop_last().take(k + 1) == t);
    }
}

/// The node reached by following `path` from `root`.
pub fn node_ref<'a>(root: &'a CommandNode, path: &Vec<usize>) -> (r: &'a CommandNode)
    requires
        valid_path(*root, path@),
    ensures
        *r == node_at(*root, path@),
{
    let mut cur: &'a CommandNode = root;
    for i in 0..path.len()
        invariant
            valid_path(*root, path@),
            *cur == node_at(*root, path@.take(i as int)),
    {
        proof {
            lemma_valid_path_prefix(*root, path@, i as int);
            assert(path@.take(0) == Seq::<usize>::empty());
        }
        cur = &cur.subcommands[path[i]];
    }
    assert(path@.take(path.len() as int) == path@);
    cur
}

/// Index of the first option of `node` carrying `label`.
fn find_option(node: &CommandNode, label: &String) -> (r: Option<usize>)
    ensures
        r matches Some(i) ==> option_for(*node, label@) == Some(i as int) && i < node.options@.len(),
        r is None ==> option_for(*node, label@) is None,
{
    let ghost p = label_pred(*node, label@);
    for i in 0..node.options.len()
        invariant
            p == label_pred(*node, label@),
            forall|j: int| 0 <= j < i ==> !#[trigger] p(j),
    {
        let labels = &node.options[i].labels;
        for k in 0..labels.len()
            invariant
                0 <= i < node.options@.len(),
                p == label_pred(*node, label@),
                forall|j: int| 0 <= j < i ==> !#[trigger] p(j),
                labels@ == node.options@[i as int].labels@,
                forall|m: int| 0 <= m < k ==> labels@[m]@ != label@,
        {
            if labels[k] == *label {
                proof {
                    assert(has_label(node.options@[i as int], label@));
                    lemma_first_where_found(node.options@.len() as int, p, i as int);
                }
                return Some(i);
            }
        }
        assert(!has_label(node.options@[i as int], label@));
        assert(!p(i as int));
    }
    proof {
        lemma_first_where_none(node.options@.len() as int, p);
    }
    None
}

/// Index of the first subcommand of `node` named `w`.
fn find_sub(node: &CommandNode, w: &String) -> (r: Option<usize>)
    ensures
        r matches Some(i) ==> sub_named(*node, w@) == Some(i as int) && i < node.subcommands@.len(),
        r is None ==> sub_named(*node, w@) is None,
{
    let ghost p = name_pred(*node, w@);
    for i in 0..node.subcommands.len()
        invariant
            p == name_pred(*node, w@),
            forall|j: int| 0 <= j < i ==> !#[trigger] p(j),
    {
        if node.subcommands[i].name == *w {
            proof {
                lemma_first_where_found(node.subcommands@.len() as int, p, i as int);
            }
            return Some(i);
        }
    }
    proof {
        lemma_first_where_none(node.subcommands@.len() as int, p);
    }
    None
}

/// The executable scan state.
pub struct ScanState {
    pub path: Vec<usize>,
    pub waiting: Option<Waiting>,
    pub options: Vec<(String, ParsedValue)>,
    pub remaining: u32,
    pub positionals: Vec<String>,
    pub no_more_options: bool,
}

impl View for ScanState {
    type V = CliState;

    open spec fn view(&self) -> CliState {
        CliState {
            path: self.path@,
            waiting: self.waiting,
            options: entries_view(self.options@),
            remaining: self.remaining,
            positionals: strings_view(self.positionals@),
            no_more_options: self.no_more_options,
        }
    }
}

fn scan_rest(root: &CommandNode, st: &mut ScanState, word: &String, wc: &Vec<char>)
    requires
        state_wf(*root, old(st)@),
        old(st).waiting is None,
        wc@ == word@,
    ensures
        final(st)@ == step_rest(*root, old(st)@, word@),
{
    let ghost s0 = st@;
    if wc.len() == 2 && wc[0] == '-' && wc[1] == '-' {
        st.no_more_options = true;
        return;
    }
    if st.remaining > 0 {
        st.positionals.push(word.clone());
        st.remaining = st.remaining - 1;
        assert(strings_view(st.positionals@) =~= s0.positionals.push(word@));
        return;
    }
    let node = node_ref(root, &st.path);
    match find_sub(node, word) {
        Some(i) => {
            let j = match node.subcommands[i].target {
                Some(t) => if (t as usize) < node.subcommands.len() {
                    t as usize
                } else {
                    i
                },
                None => i,
            };
            assert(j as int == alias_target(*node, i as int));
            st.path.push(j);
            st.waiting = None;
            st.remaining = node.subcommands[j].args_count;
            st.positionals = Vec::new();
            assert(strings_view(st.positionals@) =~= Seq::<Seq<char>>::empty());
        },
        None => {},
    }
}

fn scan_option(root: &CommandNode, st: &mut ScanState, word: &String, wc: &Vec<char>) -> (handled: bool)
    requires
        state_wf(*root, old(st)@),
        wc@ == word@,
    ensures
        ({
            let node = node_at(*root, old(st)@.path);
            let (label, attached) = split_label(word@);
            handled == (!old(st)@.no_more_options && word@.len() > 0 && word@[0] == '-'
                && option_for(node, label) is Some)
        }),
        handled ==> final(st)@ == step(*root, old(st)@, word@),
        !handled ==> final(st)@ == old(st)@,
{
    if st.no_more_options || wc.len() == 0 || wc[0] != '-' {
        return false;
    }
    let ghost s0 = st@;
    let (label, attached) = match find_char(wc, '=') {
        Some(k) => (string_from_range(wc, 0, k), Some(string_from_range(wc, k + 1, wc.len()))),
        None => (word.clone(), None),
    };
    assert(label@ == split_label(word@).0);
    assert(match attached {
        Some(a) => split_label(word@).1 == Some(a@),
        None => split_label(word@).1 is None,
    });
    let node = node_ref(root, &st.path);
    match find_option(node, &label) {
        Some(oi) => {
            proof {
                lemma_option_for(*node, label@);
            }
            let opt = &node.options[oi];
            if opt.args_count == 0 {
                flag_labels_exec(&mut st.options, &opt.labels);
                st.waiting = None;
            } else {
                match attached {
                    Some(v) => {
                        push_labels_exec(&mut st.options, &opt.labels, &v);
                        st.waiting = None;
                    },
                    None => {
                        st.waiting = Some(Waiting { opt: oi, cap: opt.args_count, used: 0 });
                    },
                }
            }
            true
        },
        None => false,
    }
}

/// A waiting option takes `w` as its next value.
pub open spec fn feed_waiting(root: CommandNode, s: CliState, w: Seq<char>) -> CliState {
    let wt = s.waiting.unwrap();
    let opt = node_at(root, s.path).options@[wt.opt as int];
    let used = (wt.used + 1) as u32;
    CliState {
        options: push_labels(s.options, opt.labels@, w),
        waiting: if used >= wt.cap {
            None
        } else {
            Some(Waiting { opt: wt.opt, cap: wt.cap, used })
        },
        ..s
    }
}

/// The state with no waiting option.
pub open spec fn release_waiting(s: CliState) -> CliState {
    CliState { waiting: None, ..s }
}

fn scan_waiting(root: &CommandNode, st: &mut ScanState, word: &String) -> (handled: bool)
    requires
        state_wf(*root, old(st)@),
    ensures
        handled == (old(st)@.waiting is Some && old(st)@.waiting.unwrap().used < old(st)@.waiting.unwrap().cap),
        handled ==> final(st)@ == feed_waiting(*root, old(st)@, word@),
        !handled ==> final(st)@ == release_waiting(old(st)@),
{
    match st.waiting {
        Some(wt) => {
            if wt.used < wt.cap {
                let node = node_ref(root, &st.path);
                let opt = &node.options[wt.opt];
                push_labels_exec(&mut st.options, &opt.labels, word);
                let used = wt.used + 1;
                st.waiting = if used >= wt.cap {
                    None
                } else {
                    Some(Waiting { opt: wt.opt, cap: wt.cap, used })
                };
                true
            } else {
                st.waiting = None;
                false
            }
        },
        None => false,
    }
}

/// One token of the scan, as [`step`] describes it.
fn scan_step(root: &CommandNode, st: &mut ScanState, word: &String)
    requires
        state_wf(*root, old(st)@),
    ensures
        final(st)@ == step(*root, old(st)@, word@),
{
    let wc = chars_of(word.as_str());
    if scan_option(root, st, word, &wc) {
        return;
    }
    if scan_waiting(root, st, word) {
        return;
    }
    scan_rest(root, st, word, &wc);
}

} // verus!

verus! {

/// Where completion stands after the scanned tokens: at a command node, or at an option of
/// that node that still expects a value. The node is given by its path from the root.
pub enum CompletionContext {
    Node(Vec<usize>),
    OptionValue(Vec<usize>, usize),
}

/// Result of [`parse_cli_state`].
pub struct ParseResult {
    pub ctx: CompletionContext,
    /// Parsed options, keyed by every label of each option that was given.
    pub options: Vec<(String, ParsedValue)>,
    /// Positional tokens the current node may still consume (0 once its quota is used up).
    pub positional_remaining: u32,
    /// Positional tokens already consumed by the current node.
    pub positional_args: Vec<String>,
}

/// Whether `r` reports the scan state `s`.
pub open spec fn reports(r: ParseResult, s: CliState) -> bool {
    &&& match r.ctx {
        CompletionContext::Node(p) => p@ == s.path && s.waiting is None,
        CompletionContext::OptionValue(p, o) => p@ == s.path && s.waiting is Some
            && s.waiting.unwrap().opt == o,
    }
    &&& entries_view(r.options@) == s.options
    &&& r.positional_remaining == s.remaining
    &&& strings_view(r.positional_args@) == s.positionals
}

/// Scans the words typed before the cursor through the completion tree: follows subcommands
/// (and their alias targets), collects options with their values under all their labels,
/// lets each node and option consume exactly as many tokens as it declares, and stops option
/// parsing after `--`.
pub fn parse_cli_state(root: &CommandNode, words: &Vec<String>) -> (r: ParseResult)
    ensures
        reports(r, run(*root, strings_view(words@))),
{
    let ghost sv = strings_view(words@);
    let mut st = ScanState {
        path: Vec::new(),
        waiting: None,
        options: Vec::new(),
        remaining: root.args_count,
        positionals: Vec::new(),
        no_more_options: false,
    };
    assert(st@ =~= init_state(*root)) by {
        assert(entries_view(st.options@) =~= Seq::<(Seq<char>, ParsedV)>::empty());
        assert(strings_view(st.positionals@) =~= Seq::<Seq<char>>::empty());
    }
    assert(sv.take(0) =~= Seq::<Seq<char>>::empty());
    for i in 0..words.len()
        invariant
            sv == strings_view(words@),
            st@ == run(*root, sv.take(i as int)),
    {
        proof {
            lemma_run_wf(*root, sv.take(i as int));
        }
        scan_step(root, &mut st, &words[i]);
        assert(sv.take(i + 1).drop_last() == sv.take(i as int));
        assert(sv.take(i + 1).last() == words@[i as int]@);
    }
    assert(sv.take(words.len() as int) == sv);
    let ctx = match st.waiting {
        Some(w) => CompletionContext::OptionValue(st.path, w.opt),
        None => CompletionContext::Node(st.path),
    };
    ParseResult {
        ctx,
        options: st.options,
        positional_remaining: st.remaining,
        positional_args: st.positionals,
    }
}

} // verus!
