use vstd::prelude::*;
use crate::text::{push_char, strings_view};
use crate::seqs::{first_where, lemma_first_where_found, lemma_first_where_none};

verus! {

/// Display style of a suggestion: foreground, background and text attributes.
#[derive(Debug, Clone, PartialEq, Eq, Default)]
pub struct SuggestionStyle {
    pub fg: Option<String>,
    pub bg: Option<String>,
    pub attr: Option<Vec<String>>,
}

/// Mathematical value of a [`SuggestionStyle`].
pub struct StyleV {
    pub fg: Option<Seq<char>>,
    pub bg: Option<Seq<char>>,
    pub attr: Option<Seq<Seq<char>>>,
}

pub open spec fn opt_str_view(s: Option<String>) -> Option<Seq<char>> {
    match s {
        Some(x) => Some(x@),
        None => None,
    }
}

impl View for SuggestionStyle {
    type V = StyleV;

    open spec fn view(&self) -> StyleV {
        StyleV {
            fg: opt_str_view(self.fg),
            bg: opt_str_view(self.bg),
            attr: match self.attr {
                Some(a) => Some(strings_view(a@)),
                None => None,
            },
        }
    }
}

pub open spec fn opt_style_view(s: Option<SuggestionStyle>) -> Option<StyleV> {
    match s {
        Some(x) => Some(x@),
        None => None,
    }
}

/// A copy of an optional string.
pub fn copy_opt_string(s: &Option<String>) -> (r: Option<String>)
    ensures
        r == *s,
{
    match s {
        Some(x) => Some(x.clone()),
        None => None,
    }
}

/// A copy of a vector of strings.
pub fn copy_strings(v: &Vec<String>) -> (r: Vec<String>)
    ensures
        r@ == v@,
{
    let mut r: Vec<String> = Vec::new();
    for i in 0..v.len()
        invariant
            r@ == v@.take(i as int),
    {
        r.push(v[i].clone());
    }
    assert(v@.take(v.len() as int) == v@);
    r
}

impl SuggestionStyle {
    /// A field-by-field copy.
    pub fn copied(&self) -> (r: Self)
        ensures
            r@ == self@,
    {
        let attr = match &self.attr {
            Some(a) => Some(copy_strings(a)),
            None => None,
        };
        SuggestionStyle { fg: copy_opt_string(&self.fg), bg: copy_opt_string(&self.bg), attr }
    }
}

/// A copy of an optional style.
pub fn copy_opt_style(s: &Option<SuggestionStyle>) -> (r: Option<SuggestionStyle>)
    ensures
        opt_style_view(r) == opt_style_view(*s),
{
    match s {
        Some(x) => Some(x.copied()),
        None => None,
    }
}


/// A static suggestion written out in a completion script.
#[derive(Debug, Clone, PartialEq, Eq, Default)]
pub struct StaticSuggestion {
    pub display: String,
    pub value: String,
    pub description: String,
    pub style: Option<SuggestionStyle>,
}

/// An option of a command: its labels (aliases), how many values it takes, and where the
/// suggestions for its values come from.
#[derive(Debug, Clone, PartialEq, Eq, Default)]
pub struct OptionItem {
    pub labels: Vec<String>,
    pub description: String,
    pub style: Option<SuggestionStyle>,
    pub takes_value: bool,
    /// Number of value tokens the option consumes after its label (0 for a flag).
    pub args_count: u32,
    pub dynamic_func: Option<String>,
    pub static_args: Option<Vec<StaticSuggestion>>,
}

/// A node of the completion tree.
#[derive(Debug, Default)]
pub struct CommandNode {
    pub name: String,
    pub description: String,
    pub style: Option<SuggestionStyle>,
    /// For an alias: the index, among its siblings, of the command it stands for.
    pub target: Option<u32>,
    pub subcommands: Vec<CommandNode>,
    pub options: Vec<OptionItem>,
    /// Number of positional tokens the node consumes.
    pub args_count: u32,
    pub dynamic_func: Option<String>,
    pub static_args: Option<Vec<StaticSuggestion>>,
}

/// The whole completion cache: the merged command tree and the compiled dynamic modules.
#[derive(Debug, Default)]
pub struct CompletionCache {
    pub root: CommandNode,
    /// One compiled module per completion script, in scan order.
    pub bytecodes: Vec<Vec<u8>>,
    /// Dynamic function id and the index of the module that defines it.
    pub dyn_index: Vec<(String, u32)>,
}

/// One completion candidate.
#[derive(Debug, Clone, PartialEq, Eq, Default)]
pub struct CompletionItem {
    pub display: String,
    pub value: String,
    pub description: String,
    pub style: Option<SuggestionStyle>,
}

/// Mathematical value of a [`CompletionItem`].
pub struct ItemV {
    pub display: Seq<char>,
    pub value: Seq<char>,
    pub description: Seq<char>,
    pub style: Option<StyleV>,
}

impl View for CompletionItem {
    type V = ItemV;

    open spec fn view(&self) -> ItemV {
        ItemV {
            display: self.display@,
            value: self.value@,
            description: self.description@,
            style: opt_style_view(self.style),
        }
    }
}

/// The views of a sequence of items.
pub open spec fn items_view(items: Seq<CompletionItem>) -> Seq<ItemV> {
    items.map_values(|i: CompletionItem| i@)
}

impl CompletionItem {
    /// An item whose value is its display text.
    pub fn new(display: String, description: String, style: Option<SuggestionStyle>) -> (r: Self)
        ensures
            r.display@ == display@,
            r.value@ == display@,
            r.description@ == description@,
            opt_style_view(r.style) == opt_style_view(style),
    {
        CompletionItem { display: display.clone(), value: display, description, style }
    }

    /// The same item with a space appended to its value.
    pub fn with_trailing_space(self) -> (r: Self)
        ensures
            r.display@ == self.display@,
            r.value@ == self.value@.push(' '),
            r.description@ == self.description@,
            opt_style_view(r.style) == opt_style_view(self.style),
    {
        let mut r = self;
        push_char(&mut r.value, ' ');
        r
    }

    /// An item without style whose value is its display text.
    pub fn simple(display: String, description: String) -> (r: Self)
        ensures
            r.display@ == display@,
            r.value@ == display@,
            r.description@ == description@,
            r.style is None,
    {
        Self::new(display, description, None)
    }

    /// A field-by-field copy.
    pub fn copied(&self) -> (r: Self)
        ensures
            r@ == self@,
    {
        CompletionItem {
            display: self.display.clone(),
            value: self.value.clone(),
            description: self.description.clone(),
            style: copy_opt_style(&self.style),
        }
    }
}


/// Whether entry `i` of the dynamic index names function `f`.
pub open spec fn index_pred(cache: CompletionCache, f: Seq<char>) -> spec_fn(int) -> bool {
    |i: int| cache.dyn_index@[i].0@ == f
}

/// The compiled module of the first index entry naming `f`, when that entry points at an
/// existing module.
pub open spec fn lookup_bytecode(cache: CompletionCache, f: Seq<char>) -> Option<Seq<u8>> {
    match first_where(cache.dyn_index@.len() as int, index_pred(cache, f)) {
        Some(i) => {
            let idx = cache.dyn_index@[i].1;
            if (idx as int) < cache.bytecodes@.len() {
                Some(cache.bytecodes@[idx as int]@)
            } else {
                None
            }
        },
        None => None,
    }
}

/// A copy of a byte vector.
pub fn copy_bytes(v: &Vec<u8>) -> (r: Vec<u8>)
    ensures
        r@ == v@,
{
    let mut r: Vec<u8> = Vec::new();
    for i in 0..v.len()
        invariant
            r@ == v@.take(i as int),
    {
        r.push(v[i]);
        assert(v@.take(i + 1) == v@.take(i as int).push(v@[i as int]));
    }
    assert(v@.take(v.len() as int) == v@);
    r
}

/// The compiled module that defines the dynamic function `func_name`: the module of the first
/// index entry with that name, if the entry points at an existing module.
pub fn find_bytecode(cache: &CompletionCache, func_name: &String) -> (r: Option<Vec<u8>>)
    ensures
        match r {
            Some(b) => lookup_bytecode(*cache, func_name@) == Some(b@),
            None => lookup_bytecode(*cache, func_name@) is None,
        },
{
    let ghost p = index_pred(*cache, func_name@);
    for i in 0..cache.dyn_index.len()
        invariant
            p == index_pred(*cache, func_name@),
            forall|j: int| 0 <= j < i ==> !#[trigger] p(j),
    {
        if cache.dyn_index[i].0 == *func_name {
            proof {
                lemma_first_where_found(cache.dyn_index@.len() as int, p, i as int);
            }
            let idx = cache.dyn_index[i].1;
            if (idx as usize) < cache.bytecodes.len() {
                return Some(copy_bytes(&cache.bytecodes[idx as usize]));
            } else {
                return None;
            }
        }
    }
    proof {
        lemma_first_where_none(cache.dyn_index@.len() as int, p);
    }
    None
}

/// The style read from the cache file: its colours and attributes copied out of the
/// archive.
pub fn from_archived_style(fg: Option<&str>, bg: Option<&str>, attr: Option<&Vec<&str>>) -> (r: SuggestionStyle)
    ensures
        opt_str_view(r.fg) == (match fg { Some(s) => Some(s@), None => None::<Seq<char>> }),
        opt_str_view(r.bg) == (match bg { Some(s) => Some(s@), None => None::<Seq<char>> }),
        match (r.attr, attr) {
            (Some(a), Some(b)) => strings_view(a@) == b@.map_values(|s: &str| s@),
            (None, None) => true,
            _ => false,
        },
{
    let fg = match fg {
        Some(s) => Some(String::from_str(s)),
        None => None,
    };
    let bg = match bg {
        Some(s) => Some(String::from_str(s)),
        None => None,
    };
    let attr = match attr {
        Some(a) => {
            let mut v: Vec<String> = Vec::new();
            for i in 0..a.len()
                invariant
                    strings_view(v@) == a@.take(i as int).map_values(|s: &str| s@),
            {
                v.push(String::from_str(a[i]));
                assert(a@.take(i + 1).map_values(|s: &str| s@) =~= a@.take(i as int).map_values(|s: &str| s@).push(a@[i as int]@));
                assert(strings_view(v@) =~= strings_view(v@.drop_last()).push(v@.last()@));
            }
            assert(a@.take(a.len() as int) =~= a@);
            Some(v)
        },
        None => None,
    };
    SuggestionStyle { fg, bg, attr }
}

} // verus!
