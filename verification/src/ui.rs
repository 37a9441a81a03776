use vstd::prelude::*;
use crate::install::ScriptEntry;
use crate::text::{chars_of, concat, push_char, push_str, strings_view};

verus! {

/// The width of a box's contents: the widest line, narrowed to the terminal less a margin of
/// 12 columns where the terminal is wider than 20 columns.
pub open spec fn box_width(widths: Seq<usize>, terminal: usize) -> usize {
    let m = max_of(widths);
    if terminal > 20 {
        let room = (terminal - 12) as usize;
        if m < room {
            m
        } else {
            room
        }
    } else {
        m
    }
}

/// The largest of some widths, 0 for none.
pub open spec fn max_of(w: Seq<usize>) -> usize
    decreases w.len(),
{
    if w.len() == 0 {
        0
    } else {
        let m = max_of(w.drop_last());
        if w.last() > m {
            w.last()
        } else {
            m
        }
    }
}

/// The width of a box's contents for lines of the given display widths on a terminal of the
/// given width.
pub fn content_width(widths: &Vec<usize>, terminal: usize) -> (r: usize)
    ensures
        r == box_width(widths@, terminal),
{
    let mut m: usize = 0;
    for i in 0..widths.len()
        invariant
            m == max_of(widths@.take(i as int)),
    {
        assert(widths@.take(i + 1).drop_last() =~= widths@.take(i as int));
        if widths[i] > m {
            m = widths[i];
        }
    }
    assert(widths@.take(widths.len() as int) =~= widths@);
    if terminal > 20 {
        let room = terminal - 12;
        if m < room {
            m
        } else {
            room
        }
    } else {
        m
    }
}

/// `c` repeated `n` times.
pub open spec fn repeat_char(c: char, n: nat) -> Seq<char> {
    Seq::new(n, |i: int| c)
}

fn push_repeat(s: &mut String, c: char, n: usize)
    ensures
        final(s)@ == old(s)@ + repeat_char(c, n as nat),
{
    let ghost s0 = s@;
    for i in 0..n
        invariant
            s@ == s0 + repeat_char(c, i as nat),
    {
        push_char(s, c);
        assert(repeat_char(c, (i + 1) as nat) =~= repeat_char(c, i as nat).push(c));
    }
}

/// The top edge of a box whose contents are `width` columns wide (two columns of padding on
/// each side).
pub open spec fn box_top(width: nat) -> Seq<char> {
    "  ╭"@ + repeat_char('─', width + 4) + "╮"@
}

/// The bottom edge of a box whose contents are `width` columns wide.
pub open spec fn box_bottom(width: nat) -> Seq<char> {
    "  ╰"@ + repeat_char('─', width + 4) + "╯"@
}

/// The top and bottom edges of a box whose contents are `width` columns wide.
pub fn box_edges(width: usize) -> (r: (String, String))
    requires
        width + 4 <= usize::MAX,
    ensures
        r.0@ == box_top(width as nat),
        r.1@ == box_bottom(width as nat),
{
    let mut top = String::from_str("  ╭");
    push_repeat(&mut top, '─', width + 4);
    push_str(&mut top, "╮");
    let mut bottom = String::from_str("  ╰");
    push_repeat(&mut bottom, '─', width + 4);
    push_str(&mut bottom, "╯");
    (top, bottom)
}

/// How many bytes `c` takes in UTF-8.
pub open spec fn utf8_width(c: char) -> nat {
    if (c as u32) < 0x80 {
        1
    } else if (c as u32) < 0x800 {
        2
    } else if (c as u32) < 0x10000 {
        3
    } else {
        4
    }
}

/// How many bytes `s` takes in UTF-8 (`str::len`).
pub open spec fn utf8_len(s: Seq<char>) -> nat
    decreases s.len(),
{
    if s.len() == 0 {
        0
    } else {
        utf8_len(s.drop_last()) + utf8_width(s.last())
    }
}

proof fn lemma_utf8_len_bound(s: Seq<char>)
    ensures
        utf8_len(s) <= 4 * s.len(),
    decreases s.len(),
{
    if s.len() > 0 {
        lemma_utf8_len_bound(s.drop_last());
    }
}

/// How many bytes a string takes in UTF-8.
pub fn byte_len(s: &str) -> (r: usize)
    requires
        4 * s@.len() <= usize::MAX,
    ensures
        r == utf8_len(s@),
{
    let v = chars_of(s);
    let mut n: usize = 0;
    for i in 0..v.len()
        invariant
            v@ == s@,
            4 * v@.len() <= usize::MAX,
            n == utf8_len(v@.take(i as int)),
    {
        let ghost t = v@.take(i + 1);
        assert(t.drop_last() =~= v@.take(i as int));
        proof {
            lemma_utf8_len_bound(v@.take(i as int));
        }
        let c = v[i] as u32;
        let w: usize = if c < 0x80 { 1 } else if c < 0x800 { 2 } else if c < 0x10000 { 3 } else { 4 };
        n = n + w;
    }
    assert(v@.take(v.len() as int) =~= v@);
    n
}

/// `name` padded with spaces to `width` characters, as `{:width$}` pads.
pub open spec fn pad_to(name: Seq<char>, width: nat) -> Seq<char> {
    if name.len() < width {
        name + repeat_char(' ', (width - name.len()) as nat)
    } else {
        name
    }
}

/// The languages of a script, joined by `, `.
pub open spec fn join_langs(l: Seq<Seq<char>>) -> Seq<char>
    decreases l.len(),
{
    if l.len() == 0 {
        Seq::<char>::empty()
    } else if l.len() == 1 {
        l[0]
    } else {
        join_langs(l.drop_last()) + ", "@ + l.last()
    }
}

/// The languages of all namespaces, namespace after namespace.
pub open spec fn flat_langs(nss: Seq<(Seq<char>, Seq<Seq<char>>)>) -> Seq<Seq<char>>
    decreases nss.len(),
{
    if nss.len() == 0 {
        Seq::<Seq<char>>::empty()
    } else {
        flat_langs(nss.drop_last()) + nss.last().1
    }
}

/// The strings in order, each kept at its first occurrence only.
pub open spec fn first_occurrences(s: Seq<Seq<char>>) -> Seq<Seq<char>>
    decreases s.len(),
{
    if s.len() == 0 {
        s
    } else {
        let r = first_occurrences(s.drop_last());
        if r.contains(s.last()) {
            r
        } else {
            r.push(s.last())
        }
    }
}

/// The languages a script has translations for, as the listing shows them: those of its
/// namespaces in order, each once.
pub open spec fn listed_langs(e: ScriptEntry) -> Seq<Seq<char>> {
    first_occurrences(flat_langs(crate::install::i18n_view(e)))
}

/// The languages a script has translations for, each once, in the order its namespaces
/// name them.
pub fn script_languages(e: &ScriptEntry) -> (r: Vec<String>)
    ensures
        strings_view(r@) == listed_langs(*e),
{
    let ghost nv = crate::install::i18n_view(*e);
    let mut r: Vec<String> = Vec::new();
    let mut n: usize = 0;
    while n < e.i18n.len()
        invariant
            nv == crate::install::i18n_view(*e),
            n <= e.i18n.len(),
            strings_view(r@) == first_occurrences(flat_langs(nv.take(n as int))),
        decreases e.i18n.len() - n,
    {
        let langs = &e.i18n[n].1;
        let ghost base = flat_langs(nv.take(n as int));
        assert(nv.take(n + 1).drop_last() =~= nv.take(n as int));
        assert(nv.take(n + 1).last() == nv[n as int]);
        assert(nv[n as int].1 == strings_view(langs@));
        let mut l: usize = 0;
        while l < langs.len()
            invariant
                l <= langs.len(),
                strings_view(r@) == first_occurrences(base + strings_view(langs@).take(l as int)),
            decreases langs.len() - l,
        {
            let ghost a = base + strings_view(langs@).take(l as int);
            let ghost b = base + strings_view(langs@).take(l + 1);
            assert(b.drop_last() =~= a);
            assert(b.last() == langs@[l as int]@);
            if !crate::install::contains_str(&r, &langs[l]) {
                let ghost before = strings_view(r@);
                r.push(langs[l].clone());
                assert(strings_view(r@) =~= before.push(langs@[l as int]@));
            }
            l = l + 1;
        }
        assert(base + strings_view(langs@).take(langs.len() as int) =~= flat_langs(nv.take(n + 1)));
        n = n + 1;
    }
    assert(nv.take(e.i18n.len() as int) =~= nv);
    r
}

/// One line of the registry listing.
pub open spec fn script_line(e: ScriptEntry, width: nat) -> Seq<char> {
    let langs = listed_langs(e);
    "  "@ + pad_to(e.name@, width) + "  "@ + e.description@ + (if langs.len() == 0 {
        Seq::<char>::empty()
    } else {
        " ["@ + join_langs(langs) + "]"@
    })
}

/// The byte lengths of the scripts' names.
pub open spec fn name_lengths(reg: Seq<ScriptEntry>) -> Seq<usize> {
    reg.map_values(|e: ScriptEntry| utf8_len(e.name@) as usize)
}

/// One line of the registry listing: the name padded to the widest name (in bytes), the
/// description, and the languages it has translations for.
pub fn listing_line(e: &ScriptEntry, width: usize) -> (r: String)
    ensures
        r@ == script_line(*e, width as nat),
{
    let mut s = String::from_str("  ");
    push_str(&mut s, e.name.as_str());
    let n = e.name.unicode_len();
    if n < width {
        push_repeat(&mut s, ' ', width - n);
    }
    push_str(&mut s, "  ");
    push_str(&mut s, e.description.as_str());
    proof {
        reveal_strlit("");
    }
    let langs = script_languages(e);
    if langs.len() > 0 {
        let ghost s0 = s@;
        push_str(&mut s, " [");
        let ghost s1 = s@;
        let mut i: usize = 0;
        while i < langs.len()
            invariant
                i <= langs.len(),
                langs.len() > 0,
                i == 0 ==> s@ == s1,
                i > 0 ==> s@ == s1 + join_langs(strings_view(langs@).take(i as int)),
            decreases langs.len() - i,
        {
            let ghost t = strings_view(langs@).take(i + 1);
            assert(t.drop_last() =~= strings_view(langs@).take(i as int));
            if i > 0 {
                push_str(&mut s, ", ");
            } else {
                assert(t =~= seq![langs@[0]@]);
            }
            push_str(&mut s, langs[i].as_str());
            i = i + 1;
        }
        assert(strings_view(langs@).take(langs.len() as int) =~= strings_view(langs@));
        push_str(&mut s, "]");
    }
    s
}

/// The largest of some widths.
fn max_width(w: &Vec<usize>) -> (r: usize)
    ensures
        r == max_of(w@),
{
    let mut m: usize = 0;
    for i in 0..w.len()
        invariant
            m == max_of(w@.take(i as int)),
    {
        assert(w@.take(i + 1).drop_last() =~= w@.take(i as int));
        if w[i] > m {
            m = w[i];
        }
    }
    assert(w@.take(w.len() as int) =~= w@);
    m
}

/// The lines of the registry listing: one per script, in order, every name padded to the
/// longest name (measured in bytes).
pub fn listing_lines(reg: &Vec<ScriptEntry>) -> (r: Vec<String>)
    requires
        forall|i: int| 0 <= i < reg@.len() ==> 4 * (#[trigger] reg@[i]).name@.len() <= usize::MAX,
    ensures
        strings_view(r@) == reg@.map_values(|e: ScriptEntry| script_line(e, max_of(name_lengths(reg@)) as nat)),
{
    let ghost nl = name_lengths(reg@);
    let mut widths: Vec<usize> = Vec::new();
    for i in 0..reg.len()
        invariant
            nl == name_lengths(reg@),
            forall|i: int| 0 <= i < reg@.len() ==> 4 * (#[trigger] reg@[i]).name@.len() <= usize::MAX,
            widths@ == nl.take(i as int),
    {
        let n = byte_len(reg[i].name.as_str());
        proof {
            lemma_utf8_len_bound(reg@[i as int].name@);
        }
        widths.push(n);
        assert(widths@ =~= nl.take(i + 1));
    }
    assert(widths@ =~= nl);
    let width = max_width(&widths);
    let ghost lv = reg@.map_values(|e: ScriptEntry| script_line(e, width as nat));
    let mut out: Vec<String> = Vec::new();
    for i in 0..reg.len()
        invariant
            lv == reg@.map_values(|e: ScriptEntry| script_line(e, width as nat)),
            strings_view(out@) == lv.take(i as int),
    {
        let line = listing_line(&reg[i], width);
        let ghost before = strings_view(out@);
        out.push(line);
        assert(strings_view(out@) =~= before.push(line@));
        assert(lv.take(i + 1) =~= lv.take(i as int).push(lv[i as int]));
    }
    assert(lv.take(reg.len() as int) =~= lv);
    out
}

/// A terminal style, from `console`.
#[verifier::external_type_specification]
#[verifier::external_body]
pub struct ExConsoleStyle(console::Style);

/// The width that `console::measure_text_width` gives a text: the terminal columns it takes,
/// ANSI escape codes not counted.
pub uninterp spec fn text_width(s: Seq<char>) -> usize;

/// Calls `console::measure_text_width`.
#[verifier::external_body]
fn measure_width(s: &str) -> (r: usize)
    ensures
        r == text_width(s@),
{
    console::measure_text_width(s)
}

/// A text padded on the right with spaces to `width` columns, as `console::pad_str` does with
/// left alignment and no truncation marker: unchanged where it is already that wide.
pub open spec fn pad_right(s: Seq<char>, width: usize) -> Seq<char> {
    if text_width(s) >= width {
        s
    } else {
        s + repeat_char(' ', (width - text_width(s)) as nat)
    }
}

/// Calls `console::pad_str(s, width, Alignment::Left, None)`. Its source measures `s` with
/// `measure_text_width`, returns `s` where that is at least `width`, and otherwise appends as
/// many spaces as are missing.
#[verifier::external_body]
fn pad_left_aligned(s: &str, width: usize) -> (r: String)
    ensures
        r@ == pad_right(s@, width),
{
    console::pad_str(s, width, console::Alignment::Left, None).into_owned()
}

/// The bold cyan style that boxes are drawn in by default: `Style::new().bold().cyan()`.
/// Nothing is stated of the result: `console::Style` is opaque here, so which style it is
/// cannot be written in a contract.
#[verifier::external_body]
fn bold_cyan() -> (r: console::Style) {
    console::Style::new().bold().cyan()
}

/// A box with rounded corners around lines of text, drawn on a terminal.
pub struct TerminalBox {
    pub lines: Vec<String>,
    pub border_style: console::Style,
}

/// The parts of a drawn box: its top edge, its lines padded to a common width, and its
/// bottom edge. The sides are drawn around each row.
pub struct BoxLayout {
    pub top: String,
    pub rows: Vec<String>,
    pub bottom: String,
}

impl TerminalBox {
    /// An empty box with a bold cyan border.
    pub fn new() -> (r: Self)
        ensures
            r.lines@.len() == 0,
    {
        TerminalBox { lines: Vec::new(), border_style: bold_cyan() }
    }

    /// The same box with another border style.
    pub fn border_color(self, style: console::Style) -> (r: Self)
        ensures
            r.lines == self.lines,
            r.border_style == style,
    {
        TerminalBox { lines: self.lines, border_style: style }
    }

    /// The same box with a line of text added at the end.
    pub fn line(self, text: String) -> (r: Self)
        ensures
            strings_view(r.lines@) == strings_view(self.lines@).push(text@),
            r.border_style == self.border_style,
    {
        let mut lines = self.lines;
        let ghost before = strings_view(lines@);
        lines.push(text);
        assert(strings_view(lines@) =~= before.push(text@));
        TerminalBox { lines, border_style: self.border_style }
    }

    /// The same box with an empty line added at the end.
    pub fn empty_line(self) -> (r: Self)
        ensures
            strings_view(r.lines@) == strings_view(self.lines@).push(Seq::<char>::empty()),
            r.border_style == self.border_style,
    {
        let r = self.line(String::new());
        r
    }

    /// How the box is drawn on a terminal `terminal` columns wide: the contents are as wide as
    /// the widest line, narrowed to leave a margin on a terminal wider than 20 columns; each
    /// line is padded to that width. None where the edges would be longer than a `usize`
    /// can count.
    pub fn layout(&self, terminal: usize) -> (r: Option<BoxLayout>)
        ensures
            ({
                let ws = self.lines@.map_values(|l: String| text_width(l@));
                let w = box_width(ws, terminal);
                match r {
                    Some(b) => {
                        &&& w + 4 <= usize::MAX
                        &&& b.top@ == box_top(w as nat)
                        &&& b.bottom@ == box_bottom(w as nat)
                        &&& strings_view(b.rows@) == self.lines@.map_values(|l: String| pad_right(l@, w))
                    },
                    None => w + 4 > usize::MAX,
                }
            }),
    {
        let ghost ws = self.lines@.map_values(|l: String| text_width(l@));
        let mut widths: Vec<usize> = Vec::new();
        for i in 0..self.lines.len()
            invariant
                ws == self.lines@.map_values(|l: String| text_width(l@)),
                widths@ == ws.take(i as int),
        {
            widths.push(measure_width(self.lines[i].as_str()));
            assert(widths@ =~= ws.take(i + 1));
        }
        assert(widths@ =~= ws);
        let w = content_width(&widths, terminal);
        if w > usize::MAX - 4 {
            return None;
        }
        let (top, bottom) = box_edges(w);
        let ghost pv = self.lines@.map_values(|l: String| pad_right(l@, w));
        let mut rows: Vec<String> = Vec::new();
        for i in 0..self.lines.len()
            invariant
                pv == self.lines@.map_values(|l: String| pad_right(l@, w)),
                strings_view(rows@) == pv.take(i as int),
        {
            let ghost before = strings_view(rows@);
            let row = pad_left_aligned(self.lines[i].as_str(), w);
            assert(pv[i as int] == pad_right(self.lines@[i as int]@, w));
            rows.push(row);
            assert(strings_view(rows@) =~= before.push(row@));
            assert(pv.take(i + 1) =~= pv.take(i as int).push(pv[i as int]));
        }
        assert(pv.take(self.lines.len() as int) =~= pv);
        Some(BoxLayout { top, rows, bottom })
    }
}

impl Default for TerminalBox {
    fn default() -> (r: Self)
        ensures
            r.lines@.len() == 0,
    {
        TerminalBox::new()
    }
}

} // verus!
