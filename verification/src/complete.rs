use vstd::prelude::*;
use crate::cache::{
    copy_opt_style, find_bytecode, items_view, lookup_bytecode, opt_style_view, CommandNode,
    CompletionCache, CompletionItem, ItemV, OptionItem, StaticSuggestion,
};
use crate::cli::{
    lemma_run_wf, node_at, node_ref, parse_cli_state, reports, run, CliState, CompletionContext,
    ParseResult,
};
use crate::text::{push_char, starts_with_char, str_starts_with_char, strings_view};

verus! {

/// The completion item for one label of an option.
pub open spec fn label_item(o: OptionItem, l: String) -> ItemV {
    ItemV {
        display: l@,
        value: l@.push(' '),
        description: o.description@,
        style: opt_style_view(o.style),
    }
}

/// The completion items for all labels of an option.
pub open spec fn option_label_items(o: OptionItem) -> Seq<ItemV> {
    o.labels@.map_values(|l: String| label_item(o, l))
}

/// The completion items for all labels of all options, in order.
pub open spec fn option_items(opts: Seq<OptionItem>) -> Seq<ItemV>
    decreases opts.len(),
{
    if opts.len() == 0 {
        seq![]
    } else {
        option_items(opts.drop_last()) + option_label_items(opts.last())
    }
}

/// The completion item for a subcommand.
pub open spec fn sub_item(c: CommandNode) -> ItemV {
    ItemV {
        display: c.name@,
        value: c.name@.push(' '),
        description: c.description@,
        style: opt_style_view(c.style),
    }
}

/// The completion items for the subcommands, in order.
pub open spec fn sub_items(subs: Seq<CommandNode>) -> Seq<ItemV> {
    subs.map_values(|c: CommandNode| sub_item(c))
}

/// The completion item for a static suggestion.
pub open spec fn static_item(s: StaticSuggestion) -> ItemV {
    ItemV {
        display: s.display@,
        value: s.value@,
        description: s.description@,
        style: opt_style_view(s.style),
    }
}

/// The completion items for static suggestions, in order.
pub open spec fn static_items(s: Seq<StaticSuggestion>) -> Seq<ItemV> {
    s.map_values(|x: StaticSuggestion| static_item(x))
}

fn label_items_exec(o: &OptionItem, out: &mut Vec<CompletionItem>)
    ensures
        items_view(final(out)@) == items_view(old(out)@) + option_label_items(*o),
{
    let ghost base = items_view(out@);
    for k in 0..o.labels.len()
        invariant
            items_view(out@) == base + option_label_items(*o).take(k as int),
    {
        let item = CompletionItem::new(
            o.labels[k].clone(),
            o.description.clone(),
            copy_opt_style(&o.style),
        ).with_trailing_space();
        let ghost before = out@;
        out.push(item);
        assert(items_view(out@) =~= items_view(before).push(item@));
        assert(option_label_items(*o).take(k + 1) =~= option_label_items(*o).take(k as int).push(
            label_item(*o, o.labels@[k as int]),
        ));
    }
    assert(option_label_items(*o).take(o.labels.len() as int) =~= option_label_items(*o));
}

/// The items listing every label of every option of `node`.
pub fn option_items_exec(node: &CommandNode) -> (r: Vec<CompletionItem>)
    ensures
        items_view(r@) == option_items(node.options@),
{
    let mut out: Vec<CompletionItem> = Vec::new();
    assert(items_view(out@) =~= Seq::<ItemV>::empty());
    for i in 0..node.options.len()
        invariant
            items_view(out@) == option_items(node.options@.take(i as int)),
    {
        label_items_exec(&node.options[i], &mut out);
        assert(node.options@.take(i + 1).drop_last() == node.options@.take(i as int));
    }
    assert(node.options@.take(node.options.len() as int) == node.options@);
    out
}

/// Appends the items listing the subcommands of `node`.
pub fn push_sub_items(node: &CommandNode, out: &mut Vec<CompletionItem>)
    ensures
        items_view(final(out)@) == items_view(old(out)@) + sub_items(node.subcommands@),
{
    let ghost base = items_view(out@);
    for i in 0..node.subcommands.len()
        invariant
            items_view(out@) == base + sub_items(node.subcommands@).take(i as int),
    {
        let c = &node.subcommands[i];
        let item = CompletionItem::new(c.name.clone(), c.description.clone(), copy_opt_style(&c.style))
            .with_trailing_space();
        let ghost before = out@;
        out.push(item);
        assert(items_view(out@) =~= items_view(before).push(item@));
        assert(sub_items(node.subcommands@).take(i + 1) =~= sub_items(node.subcommands@).take(
            i as int,
        ).push(sub_item(node.subcommands@[i as int])));
    }
    assert(sub_items(node.subcommands@).take(node.subcommands.len() as int) =~= sub_items(
        node.subcommands@,
    ));
}

/// Appends the items of static suggestions.
pub fn push_static_items(s: &Vec<StaticSuggestion>, out: &mut Vec<CompletionItem>)
    ensures
        items_view(final(out)@) == items_view(old(out)@) + static_items(s@),
{
    let ghost base = items_view(out@);
    for i in 0..s.len()
        invariant
            items_view(out@) == base + static_items(s@).take(i as int),
    {
        let x = &s[i];
        let item = CompletionItem {
            display: x.display.clone(),
            value: x.value.clone(),
            description: x.description.clone(),
            style: copy_opt_style(&x.style),
        };
        let ghost before = out@;
        out.push(item);
        assert(items_view(out@) =~= items_view(before).push(item@));
        assert(static_items(s@).take(i + 1) =~= static_items(s@).take(i as int).push(
            static_item(s@[i as int]),
        ));
    }
    assert(static_items(s@).take(s.len() as int) =~= static_items(s@));
}

/// Whether a word is non-empty.
pub open spec fn nonempty_pred() -> spec_fn(Seq<char>) -> bool {
    |w: Seq<char>| w.len() > 0
}

/// The typed words split into the non-empty words before the cursor and the word being
/// typed (the last one, possibly empty).
pub open spec fn split_words(input: Seq<Seq<char>>) -> (Seq<Seq<char>>, Seq<char>) {
    if input.len() == 0 {
        (seq![], seq![])
    } else {
        (input.drop_last().filter(nonempty_pred()), input.last())
    }
}

/// Splits the typed words into the non-empty words before the cursor and the prefix being
/// typed.
pub fn split_words_exec(input: &Vec<String>) -> (r: (Vec<String>, String))
    ensures
        (strings_view(r.0@), r.1@) == split_words(strings_view(input@)),
{
    let ghost sv = strings_view(input@);
    if input.len() == 0 {
        let e: Vec<String> = Vec::new();
        assert(strings_view(e@) =~= Seq::<Seq<char>>::empty());
        return (e, String::new());
    }
    let n = input.len() - 1;
    let mut out: Vec<String> = Vec::new();
    proof {
        reveal(Seq::filter);
    }
    assert(sv.drop_last().take(0).filter(nonempty_pred()) =~= Seq::<Seq<char>>::empty());
    assert(strings_view(out@) =~= Seq::<Seq<char>>::empty());
    for i in 0..n
        invariant
            n == input.len() - 1,
            sv == strings_view(input@),
            strings_view(out@) == sv.drop_last().take(i as int).filter(nonempty_pred()),
    {
        let ghost t = sv.drop_last().take(i + 1);
        assert(t.drop_last() == sv.drop_last().take(i as int));
        assert(t.last() == input@[i as int]@);
        assert(t.len() > 0);
        proof {
            reveal(Seq::filter);
        }
        assert(t.filter(nonempty_pred()) == (if nonempty_pred()(t.last()) {
            t.drop_last().filter(nonempty_pred()).push(t.last())
        } else {
            t.drop_last().filter(nonempty_pred())
        }));
        if input[i].as_str().unicode_len() > 0 {
            let ghost before = out@;
            out.push(input[i].clone());
            assert(strings_view(out@) =~= strings_view(before).push(input@[i as int]@));
        }
    }
    assert(sv.drop_last().take(n as int) == sv.drop_last());
    (out, input[n].clone())
}


/// Which dynamic function and static suggestions supply the values being completed: those of
/// the option waiting for a value, or those of the current node while it still takes
/// positional tokens and the prefix does not start with `-`.
pub open spec fn value_source(root: CommandNode, st: CliState, prefix: Seq<char>) -> Option<
    (Option<String>, Option<Vec<StaticSuggestion>>),
> {
    let node = node_at(root, st.path);
    match st.waiting {
        Some(w) => {
            let o = node.options@[w.opt as int];
            Some((o.dynamic_func, o.static_args))
        },
        None => if !starts_with_char(prefix, '-') && st.remaining > 0 {
            Some((node.dynamic_func, node.static_args))
        } else {
            None
        },
    }
}

/// The items listed before any value suggestion: every option label when the prefix starts
/// with `-`, else every subcommand; nothing while an option waits for a value.
pub open spec fn base_items(root: CommandNode, st: CliState, prefix: Seq<char>) -> Seq<ItemV> {
    let node = node_at(root, st.path);
    match st.waiting {
        Some(_) => seq![],
        None => if starts_with_char(prefix, '-') {
            option_items(node.options@)
        } else {
            sub_items(node.subcommands@)
        },
    }
}

/// Static value suggestions of a source that has no dynamic function.
pub open spec fn source_static_items(src: Option<(Option<String>, Option<Vec<StaticSuggestion>>)>) -> Seq<ItemV> {
    match src {
        Some((None, Some(s))) => static_items(s@),
        _ => seq![],
    }
}

/// The dynamic function of a source, with its compiled module, when the cache has it.
pub open spec fn source_dynamic(cache: CompletionCache, src: Option<(Option<String>, Option<Vec<StaticSuggestion>>)>) -> Option<(Seq<char>, Seq<u8>)> {
    match src {
        Some((Some(f), _)) => match lookup_bytecode(cache, f@) {
            Some(b) => Some((f@, b)),
            None => None,
        },
        _ => None,
    }
}

/// A dynamic function to run for value suggestions, with its compiled module.
pub struct DynamicRequest {
    pub func_name: String,
    pub bytecode: Vec<u8>,
}

/// What completion computes before any dynamic function runs.
pub struct CompletionPlan {
    /// The non-empty words before the cursor.
    pub words: Vec<String>,
    /// The word being typed.
    pub prefix: String,
    pub parse: ParseResult,
    /// The items known without running code, in menu order.
    pub items: Vec<CompletionItem>,
    /// The dynamic function whose results follow `items`.
    pub dynamic: Option<DynamicRequest>,
}

/// Whether `r` is the plan for the typed words `input`.
pub open spec fn plans(cache: CompletionCache, input: Seq<Seq<char>>, r: CompletionPlan) -> bool {
    let (ws, prefix) = split_words(input);
    let st = run(cache.root, ws);
    let src = value_source(cache.root, st, prefix);
    &&& strings_view(r.words@) == ws
    &&& r.prefix@ == prefix
    &&& reports(r.parse, st)
    &&& items_view(r.items@) == base_items(cache.root, st, prefix) + source_static_items(src)
    &&& match r.dynamic {
        Some(d) => source_dynamic(cache, src) == Some((d.func_name@, d.bytecode@)),
        None => source_dynamic(cache, src) is None,
    }
}

/// While an option waits for a value, completion offers that option's values and nothing
/// else: its static suggestions when it has no dynamic function, otherwise the results of its
/// own dynamic function (when the cache holds its module); the node's own suggestions, labels
/// and subcommands are not offered.
pub proof fn lemma_waiting_option_supplies_values(cache: CompletionCache, input: Seq<Seq<char>>, r: CompletionPlan)
    requires
        plans(cache, input, r),
    ensures
        r.parse.ctx matches CompletionContext::OptionValue(p, oi) ==> {
            let o = node_at(cache.root, p@).options@[oi as int];
            &&& items_view(r.items@) == (match (o.dynamic_func, o.static_args) {
                (None, Some(sa)) => static_items(sa@),
                _ => Seq::<ItemV>::empty(),
            })
            &&& match r.dynamic {
                Some(d) => o.dynamic_func matches Some(f) && d.func_name@ == f@ && lookup_bytecode(cache, f@) == Some(d.bytecode@),
                None => o.dynamic_func matches Some(f) ==> lookup_bytecode(cache, f@) is None,
            }
        },
{
    let (ws, prefix) = split_words(input);
    let st = run(cache.root, ws);
    if let CompletionContext::OptionValue(p, oi) = r.parse.ctx {
        assert(p@ == st.path);
        assert(st.waiting is Some && st.waiting.unwrap().opt == oi);
        assert(base_items(cache.root, st, prefix) =~= Seq::<ItemV>::empty());
        let o = node_at(cache.root, p@).options@[oi as int];
        match (o.dynamic_func, o.static_args) {
            (None, Some(sa)) => {
                assert(items_view(r.items@) =~= static_items(sa@));
            },
            _ => {
                assert(items_view(r.items@) =~= Seq::<ItemV>::empty());
            },
        }
    }
}

fn resolve_source(
    cache: &CompletionCache,
    dynamic_func: &Option<String>,
    static_args: &Option<Vec<StaticSuggestion>>,
    out: &mut Vec<CompletionItem>,
) -> (r: Option<DynamicRequest>)
    ensures
        items_view(final(out)@) == items_view(old(out)@) + source_static_items(
            Some((*dynamic_func, *static_args)),
        ),
        match r {
            Some(d) => source_dynamic(*cache, Some((*dynamic_func, *static_args))) == Some(
                (d.func_name@, d.bytecode@),
            ),
            None => source_dynamic(*cache, Some((*dynamic_func, *static_args))) is None,
        },
{
    match dynamic_func {
        Some(f) => {
            assert(items_view(out@) =~= items_view(out@) + Seq::<ItemV>::empty());
            match find_bytecode(cache, f) {
                Some(b) => Some(DynamicRequest { func_name: f.clone(), bytecode: b }),
                None => None,
            }
        },
        None => {
            match static_args {
                Some(s) => {
                    push_static_items(s, out);
                },
                None => {
                    assert(items_view(out@) =~= items_view(out@) + Seq::<ItemV>::empty());
                },
            }
            None
        },
    }
}

/// Plans the completion of the typed words: splits off the word being typed, scans the
/// others with [`parse_cli_state`], and lists what the reached context offers (option
/// labels, subcommands, static value suggestions) together with the dynamic function, if
/// any, whose results follow them.
pub fn plan_completion(cache: &CompletionCache, input: &Vec<String>) -> (r: CompletionPlan)
    ensures
        plans(*cache, strings_view(input@), r),
{
    let (words, prefix) = split_words_exec(input);
    let parse = parse_cli_state(&cache.root, &words);
    let ghost st = run(cache.root, strings_view(words@));
    proof {
        lemma_run_wf(cache.root, strings_view(words@));
    }
    let mut items: Vec<CompletionItem> = Vec::new();
    let dash = str_starts_with_char(prefix.as_str(), '-');
    let dynamic = match &parse.ctx {
        CompletionContext::Node(path) => {
            let node = node_ref(&cache.root, path);
            if dash {
                items = option_items_exec(node);
                assert(items_view(items@) =~= option_items(node.options@) + Seq::<ItemV>::empty());
                None
            } else {
                push_sub_items(node, &mut items);
                assert(items_view(items@) =~= sub_items(node.subcommands@));
                if parse.positional_remaining > 0 {
                    resolve_source(cache, &node.dynamic_func, &node.static_args, &mut items)
                } else {
                    assert(items_view(items@) =~= sub_items(node.subcommands@) + Seq::<ItemV>::empty());
                    None
                }
            }
        },
        CompletionContext::OptionValue(path, oi) => {
            let node = node_ref(&cache.root, path);
            let o = &node.options[*oi];
            assert(items_view(items@) =~= Seq::<ItemV>::empty());
            let d = resolve_source(cache, &o.dynamic_func, &o.static_args, &mut items);
            assert(items_view(items@) =~= Seq::<ItemV>::empty() + source_static_items(
                Some((o.dynamic_func, o.static_args)),
            ));
            d
        },
    };
    CompletionPlan { words, prefix, parse, items, dynamic }
}

} // verus!
