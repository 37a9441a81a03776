use vstd::prelude::*;
use crate::cache::{
    copy_opt_style, items_view, opt_style_view, CompletionItem, ItemV, StyleV, SuggestionStyle,
};
use crate::logger::{level_color, level_icon, level_text, LogLevel};
use crate::shell::Shell;
use crate::text::{
    chars_of, is_prefix, push_char, push_str, str_starts_with, string_from_range, strings_view,
    trim_end,
};
use crate::text::char_is_whitespace;

verus! {

/// Whether an item's value or display text starts with the typed prefix.
pub open spec fn prefix_pred(p: Seq<char>) -> spec_fn(ItemV) -> bool {
    |i: ItemV| is_prefix(p, i.value) || is_prefix(p, i.display)
}

/// The items that match the prefix, at most `limit` of them, in order.
pub open spec fn kept_items(items: Seq<ItemV>, p: Seq<char>, limit: usize) -> Seq<ItemV> {
    let f = items.filter(prefix_pred(p));
    if f.len() <= limit {
        f
    } else {
        f.take(limit as int)
    }
}

/// What the menu keeps of the items: at most `limit` items, each one of the given items whose
/// value or display text starts with the typed prefix, in their order; and where fewer than
/// `limit` are kept, every item whose value or display text starts with the prefix is kept.
pub proof fn lemma_kept_items_match_prefix(items: Seq<ItemV>, p: Seq<char>, limit: usize)
    ensures
        kept_items(items, p, limit).len() <= limit,
        forall|j: int|
            0 <= j < kept_items(items, p, limit).len() ==> items.contains(#[trigger] kept_items(items, p, limit)[j])
                && (is_prefix(p, kept_items(items, p, limit)[j].value) || is_prefix(p, kept_items(items, p, limit)[j].display)),
        forall|i: int|
            0 <= i < items.len() && (is_prefix(p, items[i].value) || is_prefix(p, items[i].display))
                && kept_items(items, p, limit).len() < limit ==> kept_items(items, p, limit).contains(#[trigger] items[i]),
{
    broadcast use vstd::seq_lib::group_filter_ensures;
    let pred = prefix_pred(p);
    let f = items.filter(pred);
    let k = kept_items(items, p, limit);
    assert forall|j: int| 0 <= j < k.len() implies items.contains(#[trigger] k[j])
        && (is_prefix(p, k[j].value) || is_prefix(p, k[j].display)) by {
        assert(k[j] == f[j]);
        assert(pred(f[j]));
        assert(f.contains(f[j]));
        items.lemma_filter_contains_rev(pred, f[j]);
    }
    assert forall|i: int|
        0 <= i < items.len() && (is_prefix(p, items[i].value) || is_prefix(p, items[i].display))
            && k.len() < limit implies k.contains(#[trigger] items[i]) by {
        assert(pred(items[i]));
        items.lemma_filter_contains(pred, i);
        assert(f.len() <= limit);
        assert(k == f);
    }
}

/// The style of a log entry shown in the menu.
pub open spec fn log_style(level: LogLevel) -> StyleV {
    StyleV { fg: Some(level_color(level)), bg: None, attr: Some(seq!["bold"@]) }
}

/// The menu item showing a log message, as each shell displays it.
pub open spec fn log_item(shell: Shell, level: LogLevel, msg: Seq<char>) -> ItemV {
    let icon = level_icon(level);
    let text = level_text(level);
    match shell {
        Shell::Powershell => ItemV {
            display: icon + " "@ + text + " "@ + msg,
            value: "# "@ + msg,
            description: seq![],
            style: Some(log_style(level)),
        },
        Shell::Nushell => ItemV {
            display: icon + " "@ + text,
            value: "# "@ + msg,
            description: msg,
            style: Some(log_style(level)),
        },
        Shell::Fish => ItemV {
            display: seq![],
            value: "# "@ + icon + " "@ + text + ": "@ + msg,
            description: seq![],
            style: Some(log_style(level)),
        },
        _ => ItemV {
            display: icon + " "@ + text,
            value: "# "@ + msg,
            description: msg,
            style: Some(log_style(level)),
        },
    }
}

/// The menu items for the log messages, in order.
pub open spec fn log_items(shell: Shell, logs: Seq<(LogLevel, String)>) -> Seq<ItemV> {
    logs.map_values(|e: (LogLevel, String)| log_item(shell, e.0, e.1@))
}

/// The item added when only log messages would be shown, so that the menu does not complete
/// one of them by itself.
pub open spec fn pad_item(p: Seq<char>) -> ItemV {
    ItemV { display: " "@, value: p.push(' '), description: seq![], style: None }
}

/// The final menu: the kept items, with the log messages placed after the first of them (or
/// followed by a padding item when no item is kept). Zsh shows log messages apart from the
/// menu, so its menu is the kept items alone.
pub open spec fn handled_items(
    items: Seq<ItemV>,
    p: Seq<char>,
    shell: Shell,
    limit: usize,
    logs: Seq<(LogLevel, String)>,
) -> Seq<ItemV> {
    let k = kept_items(items, p, limit);
    if shell == Shell::Zsh || logs.len() == 0 {
        k
    } else if k.len() > 0 {
        seq![k[0]] + log_items(shell, logs) + k.drop_first()
    } else {
        log_items(shell, logs) + seq![pad_item(p)]
    }
}

/// Log messages never lead the menu nor stand in it alone, so that a shell that completes a
/// single candidate by itself never types a message into the command line: for a shell that
/// shows them as menu entries, the first kept item stays first, and where no item is kept the
/// messages are followed by a padding entry.
pub proof fn lemma_logs_never_lead(
    items: Seq<ItemV>,
    p: Seq<char>,
    shell: Shell,
    limit: usize,
    logs: Seq<(LogLevel, String)>,
)
    requires
        shell != Shell::Zsh,
        logs.len() > 0,
    ensures
        ({
            let k = kept_items(items, p, limit);
            let h = handled_items(items, p, shell, limit, logs);
            &&& h.len() == k.len() + logs.len() + (if k.len() == 0 { 1int } else { 0int })
            &&& h.len() >= 2
            &&& k.len() > 0 ==> h[0] == k[0]
            &&& k.len() == 0 ==> h.last() == pad_item(p)
        }),
{
}

/// The zsh message line for a log message.
pub open spec fn msg_line(level: LogLevel, msg: Seq<char>) -> Seq<char> {
    "__msg__\t"@ + level_icon(level) + " "@ + level_text(level) + ": "@ + msg
}

/// The message lines printed before the menu (zsh only).
pub open spec fn msg_lines(shell: Shell, logs: Seq<(LogLevel, String)>) -> Seq<Seq<char>> {
    if shell == Shell::Zsh {
        logs.map_values(|e: (LogLevel, String)| msg_line(e.0, e.1@))
    } else {
        seq![]
    }
}

/// What is shown for a completion request.
pub struct HandledResults {
    /// Lines printed before the menu.
    pub msg_lines: Vec<String>,
    /// The menu, in order.
    pub items: Vec<CompletionItem>,
}

proof fn lemma_take_push<A>(f: Seq<A>, x: A, n: int)
    requires
        0 <= n <= f.len(),
    ensures
        f.push(x).take(n) == f.take(n),
{
    assert(f.push(x).take(n) =~= f.take(n));
}

/// The items matching the prefix, at most `limit` of them.
pub fn keep_matching(items: &Vec<CompletionItem>, prefix: &str, limit: usize) -> (r: Vec<CompletionItem>)
    ensures
        items_view(r@) == kept_items(items_view(items@), prefix@, limit),
{
    let ghost iv = items_view(items@);
    let ghost pred = prefix_pred(prefix@);
    let mut out: Vec<CompletionItem> = Vec::new();
    proof {
        reveal(Seq::filter);
        assert(iv.take(0).filter(pred) =~= Seq::<ItemV>::empty());
    }
    assert(items_view(out@) =~= Seq::<ItemV>::empty());
    for i in 0..items.len()
        invariant
            iv == items_view(items@),
            pred == prefix_pred(prefix@),
            ({
                let f = iv.take(i as int).filter(pred);
                items_view(out@) == if f.len() <= limit {
                    f
                } else {
                    f.take(limit as int)
                }
            }),
    {
        let ghost t = iv.take(i + 1);
        let ghost f0 = iv.take(i as int).filter(pred);
        let x = &items[i];
        proof {
            reveal(Seq::filter);
            assert(t.drop_last() == iv.take(i as int));
            assert(t.last() == x@);
            assert(t.filter(pred) == (if pred(x@) {
                f0.push(x@)
            } else {
                f0
            }));
        }
        let m = str_starts_with(x.value.as_str(), prefix) || str_starts_with(x.display.as_str(), prefix);
        assert(m == pred(x@));
        if m {
            if out.len() < limit {
                let ghost before = out@;
                out.push(x.copied());
                assert(items_view(out@) =~= items_view(before).push(x@));
            } else {
                proof {
                    if f0.len() <= limit {
                        assert(f0.len() == limit);
                        lemma_take_push(f0, x@, limit as int);
                        assert(f0.take(limit as int) =~= f0);
                    } else {
                        lemma_take_push(f0, x@, limit as int);
                    }
                }
            }
        }
    }
    assert(iv.take(items.len() as int) == iv);
    out
}

fn log_style_exec(level: LogLevel) -> (r: SuggestionStyle)
    ensures
        r@ == log_style(level),
{
    let mut attr: Vec<String> = Vec::new();
    attr.push(String::from_str("bold"));
    assert(strings_view(attr@) =~= seq!["bold"@]);
    SuggestionStyle { fg: Some(String::from_str(level.color())), bg: None, attr: Some(attr) }
}

/// The menu item showing a log message.
pub fn log_item_exec(shell: Shell, level: LogLevel, msg: &String) -> (r: CompletionItem)
    ensures
        r@ == log_item(shell, level, msg@),
{
    let icon = level.icon();
    let text = level.text();
    let style = Some(log_style_exec(level));
    let mut hash_msg = String::from_str("# ");
    push_str(&mut hash_msg, msg.as_str());
    match shell {
        Shell::Powershell => {
            let mut d = String::from_str(icon);
            push_str(&mut d, " ");
            push_str(&mut d, text);
            push_str(&mut d, " ");
            push_str(&mut d, msg.as_str());
            CompletionItem { display: d, value: hash_msg, description: String::new(), style }
        },
        Shell::Fish => {
            let mut v = String::from_str("# ");
            push_str(&mut v, icon);
            push_str(&mut v, " ");
            push_str(&mut v, text);
            push_str(&mut v, ": ");
            push_str(&mut v, msg.as_str());
            CompletionItem { display: String::new(), value: v, description: String::new(), style }
        },
        _ => {
            let mut d = String::from_str(icon);
            push_str(&mut d, " ");
            push_str(&mut d, text);
            CompletionItem { display: d, value: hash_msg, description: msg.clone(), style }
        },
    }
}

/// Builds what is shown for a completion request: keeps the items that match the prefix
/// (at most `limit`), and shows the collected log messages, as zsh message lines or as menu
/// entries placed after the first kept item.
pub fn handle_results(
    items: &Vec<CompletionItem>,
    prefix: &str,
    shell: Shell,
    limit: usize,
    logs: &Vec<(LogLevel, String)>,
) -> (r: HandledResults)
    ensures
        items_view(r.items@) == handled_items(items_view(items@), prefix@, shell, limit, logs@),
        strings_view(r.msg_lines@) == msg_lines(shell, logs@),
{
    let kept = keep_matching(items, prefix, limit);
    let ghost k = items_view(kept@);
    if shell == Shell::Zsh {
        let mut lines: Vec<String> = Vec::new();
        for i in 0..logs.len()
            invariant
                strings_view(lines@) == logs@.take(i as int).map_values(
                    |e: (LogLevel, String)| msg_line(e.0, e.1@),
                ),
        {
            let (level, msg) = &logs[i];
            let mut line = String::from_str("__msg__\t");
            push_str(&mut line, level.icon());
            push_str(&mut line, " ");
            push_str(&mut line, level.text());
            push_str(&mut line, ": ");
            push_str(&mut line, msg.as_str());
            let ghost before = lines@;
            lines.push(line);
            assert(strings_view(lines@) =~= strings_view(before).push(msg_line(*level, msg@)));
            assert(logs@.take(i + 1).map_values(|e: (LogLevel, String)| msg_line(e.0, e.1@))
                =~= logs@.take(i as int).map_values(|e: (LogLevel, String)| msg_line(e.0, e.1@)).push(
                msg_line(*level, msg@),
            ));
        }
        assert(logs@.take(logs.len() as int) == logs@);
        return HandledResults { msg_lines: lines, items: kept };
    }
    let no_lines: Vec<String> = Vec::new();
    assert(strings_view(no_lines@) =~= Seq::<Seq<char>>::empty());
    if logs.len() == 0 {
        return HandledResults { msg_lines: no_lines, items: kept };
    }
    let mut out: Vec<CompletionItem> = Vec::new();
    let has_first = kept.len() > 0;
    if has_first {
        out.push(kept[0].copied());
    }
    let ghost base = items_view(out@);
    assert(base =~= if has_first { seq![k[0]] } else { Seq::<ItemV>::empty() });
    for i in 0..logs.len()
        invariant
            items_view(out@) == base + log_items(shell, logs@).take(i as int),
    {
        let (level, msg) = &logs[i];
        let item = log_item_exec(shell, *level, msg);
        let ghost before = out@;
        out.push(item);
        assert(items_view(out@) =~= items_view(before).push(item@));
        assert(log_items(shell, logs@).take(i + 1) =~= log_items(shell, logs@).take(i as int).push(
            log_item(shell, *level, msg@),
        ));
    }
    assert(log_items(shell, logs@).take(logs.len() as int) =~= log_items(shell, logs@));
    if !has_first {
        let mut v = String::from_str(prefix);
        push_char(&mut v, ' ');
        let ghost before = out@;
        let pad = CompletionItem { display: String::from_str(" "), value: v, description: String::new(), style: None };
        out.push(pad);
        assert(items_view(out@) =~= items_view(before).push(pad_item(prefix@)));
    } else {
        let ghost mid = items_view(out@);
        for j in 1..kept.len()
            invariant
                k == items_view(kept@),
                kept.len() > 0,
                items_view(out@) == mid + k.drop_first().take(j - 1),
        {
            let ghost before = out@;
            out.push(kept[j].copied());
            assert(items_view(out@) =~= items_view(before).push(k[j as int]));
            assert(k.drop_first().take(j as int) =~= k.drop_first().take(j - 1).push(k[j as int]));
        }
        assert(k.drop_first().take(kept.len() - 1) =~= k.drop_first());
    }
    HandledResults { msg_lines: no_lines, items: out }
}


/// One suggestion object returned by a dynamic function: its fields as read from the object
/// (a missing `display` or `description` reads as empty).
pub struct JsSuggestion {
    pub display: String,
    pub description: String,
    pub style: Option<SuggestionStyle>,
    pub aliases: Option<Vec<String>>,
    pub value: Option<String>,
}

/// The items for one suggestion object: one item per alias (its value followed by a space),
/// then the suggestion itself, whose value is the explicit `value` or else the display text
/// followed by a space.
pub open spec fn js_object_items(o: JsSuggestion) -> Seq<ItemV> {
    let alias_items = match o.aliases {
        Some(a) => a@.map_values(
            |x: String|
                ItemV {
                    display: x@,
                    value: x@.push(' '),
                    description: o.description@,
                    style: opt_style_view(o.style),
                },
        ),
        None => seq![],
    };
    let main = ItemV {
        display: o.display@,
        value: match o.value {
            Some(v) => v@,
            None => o.display@.push(' '),
        },
        description: o.description@,
        style: opt_style_view(o.style),
    };
    alias_items.push(main)
}

/// The items for a list of suggestion objects, in order.
pub open spec fn js_items(objs: Seq<JsSuggestion>) -> Seq<ItemV>
    decreases objs.len(),
{
    if objs.len() == 0 {
        seq![]
    } else {
        js_items(objs.drop_last()) + js_object_items(objs.last())
    }
}

/// The items for suggestion objects returned by a dynamic function.
pub fn items_from_js_objects(objs: &Vec<JsSuggestion>) -> (r: Vec<CompletionItem>)
    ensures
        items_view(r@) == js_items(objs@),
{
    let mut out: Vec<CompletionItem> = Vec::new();
    assert(items_view(out@) =~= Seq::<ItemV>::empty());
    for i in 0..objs.len()
        invariant
            items_view(out@) == js_items(objs@.take(i as int)),
    {
        let o = &objs[i];
        let ghost start = items_view(out@);
        let ghost aliases_spec = js_object_items(*o).drop_last();
        match &o.aliases {
            Some(a) => {
                for k in 0..a.len()
                    invariant
                        aliases_spec == a@.map_values(
                            |x: String|
                                ItemV {
                                    display: x@,
                                    value: x@.push(' '),
                                    description: o.description@,
                                    style: opt_style_view(o.style),
                                },
                        ),
                        items_view(out@) == start + aliases_spec.take(k as int),
                {
                    let item = CompletionItem::new(
                        a[k].clone(),
                        o.description.clone(),
                        copy_opt_style(&o.style),
                    ).with_trailing_space();
                    let ghost before = out@;
                    out.push(item);
                    assert(items_view(out@) =~= items_view(before).push(item@));
                    assert(aliases_spec.take(k + 1) =~= aliases_spec.take(k as int).push(item@));
                }
                assert(aliases_spec.take(a.len() as int) =~= aliases_spec);
            },
            None => {
                assert(aliases_spec =~= Seq::<ItemV>::empty());
                assert(items_view(out@) =~= start + aliases_spec);
            },
        }
        let value = match &o.value {
            Some(v) => v.clone(),
            None => {
                let mut d = o.display.clone();
                push_char(&mut d, ' ');
                d
            },
        };
        let item = CompletionItem {
            display: o.display.clone(),
            value,
            description: o.description.clone(),
            style: copy_opt_style(&o.style),
        };
        let ghost before = out@;
        out.push(item);
        assert(items_view(out@) =~= items_view(before).push(item@));
        assert(item@ == js_object_items(*o).last());
        assert(js_object_items(*o) =~= aliases_spec.push(item@));
        assert(objs@.take(i + 1).drop_last() == objs@.take(i as int));
        assert(items_view(out@) =~= start + js_object_items(*o));
    }
    assert(objs@.take(objs.len() as int) == objs@);
    out
}

/// The items for plain strings returned by a dynamic function: each string is shown and
/// inserted as it is.
pub fn items_from_js_strings(strs: &Vec<String>) -> (r: Vec<CompletionItem>)
    ensures
        items_view(r@) == strs@.map_values(
            |s: String| ItemV { display: s@, value: s@, description: seq![], style: None },
        ),
{
    let mut out: Vec<CompletionItem> = Vec::new();
    for i in 0..strs.len()
        invariant
            items_view(out@) == strs@.take(i as int).map_values(
                |s: String| ItemV { display: s@, value: s@, description: seq![], style: None },
            ),
    {
        let item = CompletionItem::simple(strs[i].clone(), String::new());
        let ghost before = out@;
        out.push(item);
        assert(items_view(out@) =~= items_view(before).push(item@));
        assert(strs@.take(i + 1).map_values(
            |s: String| ItemV { display: s@, value: s@, description: seq![], style: None },
        ) =~= strs@.take(i as int).map_values(
            |s: String| ItemV { display: s@, value: s@, description: seq![], style: None },
        ).push(item@));
    }
    assert(strs@.take(strs.len() as int) == strs@);
    out
}

/// The line a plain-text shell prints for an item: the value without trailing whitespace,
/// followed for zsh by `:description` (when there is one) and for fish by a tab and the
/// description.
pub open spec fn plain_line(shell: Shell, i: ItemV) -> Seq<char> {
    let v = trim_end(i.value);
    match shell {
        Shell::Zsh => if i.description.len() == 0 {
            v
        } else {
            v + ":"@ + i.description
        },
        Shell::Fish => v + "\t"@ + i.description,
        _ => v,
    }
}

/// Whether the shell reads completions as plain lines (else as JSON records).
pub open spec fn is_plain_shell(shell: Shell) -> bool {
    shell == Shell::Zsh || shell == Shell::Fish || shell == Shell::Bash
}

proof fn lemma_trim_end_take(s: Seq<char>, k: int)
    requires
        0 <= k <= s.len(),
        forall|j: int| k <= j < s.len() ==> crate::text::is_whitespace(s[j]),
        k == 0 || !crate::text::is_whitespace(s[k - 1]),
    ensures
        trim_end(s) == s.take(k),
    decreases s.len() - k,
{
    if k == s.len() {
        assert(s.take(k) == s);
    } else {
        let t = s.drop_last();
        assert forall|j: int| k <= j < t.len() implies crate::text::is_whitespace(t[j]) by {
            assert(t[j] == s[j]);
        }
        if k > 0 {
            assert(t[k - 1] == s[k - 1]);
        }
        lemma_trim_end_take(t, k);
        assert(t.take(k) == s.take(k));
    }
}

/// The value without trailing whitespace.
pub fn trim_end_string(s: &String) -> (r: String)
    ensures
        r@ == trim_end(s@),
{
    let v = chars_of(s.as_str());
    let mut b: usize = v.len();
    while b > 0 && char_is_whitespace(v[b - 1])
        invariant
            v@ == s@,
            b <= v.len(),
            forall|j: int| b <= j < v.len() ==> crate::text::is_whitespace(v@[j]),
        decreases b,
    {
        b = b - 1;
    }
    proof {
        lemma_trim_end_take(v@, b as int);
    }
    let r = string_from_range(&v, 0, b);
    assert(v@.subrange(0, b as int) == v@.take(b as int));
    r
}

/// The lines printed for the items by a plain-text shell.
pub fn render_lines(items: &Vec<CompletionItem>, shell: Shell) -> (r: Vec<String>)
    requires
        is_plain_shell(shell),
    ensures
        strings_view(r@) == items_view(items@).map_values(|i: ItemV| plain_line(shell, i)),
{
    let ghost iv = items_view(items@);
    let mut out: Vec<String> = Vec::new();
    for i in 0..items.len()
        invariant
            iv == items_view(items@),
            strings_view(out@) == iv.take(i as int).map_values(|i: ItemV| plain_line(shell, i)),
    {
        let it = &items[i];
        let mut line = trim_end_string(&it.value);
        match shell {
            Shell::Zsh => {
                if it.description.as_str().unicode_len() > 0 {
                    push_str(&mut line, ":");
                    push_str(&mut line, it.description.as_str());
                }
            },
            Shell::Fish => {
                push_str(&mut line, "\t");
                push_str(&mut line, it.description.as_str());
            },
            _ => {},
        }
        let ghost before = out@;
        out.push(line);
        assert(strings_view(out@) =~= strings_view(before).push(plain_line(shell, iv[i as int])));
        assert(iv.take(i + 1).map_values(|i: ItemV| plain_line(shell, i)) =~= iv.take(
            i as int,
        ).map_values(|i: ItemV| plain_line(shell, i)).push(plain_line(shell, iv[i as int])));
    }
    assert(iv.take(items.len() as int) == iv);
    out
}

/// A record of the JSON list read by nushell and PowerShell.
pub struct ShellRecord {
    pub value: String,
    pub display_override: String,
    /// Left out of the JSON when empty.
    pub description: String,
    /// Left out of the JSON when absent; always absent for PowerShell.
    pub style: Option<SuggestionStyle>,
}

/// The JSON records for the items; PowerShell records carry no style.
pub fn shell_records(items: &Vec<CompletionItem>, shell: Shell) -> (r: Vec<ShellRecord>)
    ensures
        r@.len() == items@.len(),
        forall|i: int|
            0 <= i < items@.len() ==> {
                &&& (#[trigger] r@[i]).value@ == items@[i].value@
                &&& r@[i].display_override@ == items@[i].display@
                &&& r@[i].description@ == items@[i].description@
                &&& opt_style_view(r@[i].style) == if shell == Shell::Powershell {
                    None
                } else {
                    opt_style_view(items@[i].style)
                }
            },
{
    let mut out: Vec<ShellRecord> = Vec::new();
    for i in 0..items.len()
        invariant
            out@.len() == i,
            forall|j: int|
                0 <= j < i ==> {
                    &&& (#[trigger] out@[j]).value@ == items@[j].value@
                    &&& out@[j].display_override@ == items@[j].display@
                    &&& out@[j].description@ == items@[j].description@
                    &&& opt_style_view(out@[j].style) == if shell == Shell::Powershell {
                        None
                    } else {
                        opt_style_view(items@[j].style)
                    }
                },
    {
        let it = &items[i];
        let style = if shell == Shell::Powershell {
            None
        } else {
            copy_opt_style(&it.style)
        };
        out.push(
            ShellRecord {
                value: it.value.clone(),
                display_override: it.display.clone(),
                description: it.description.clone(),
                style,
            },
        );
    }
    out
}

} // verus!
