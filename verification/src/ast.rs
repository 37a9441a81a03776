use vstd::prelude::*;
use crate::disk::{dec_str, dec_string};
use crate::text::{chars_of, concat, push_char, push_str, str_eq, string_from_chars, string_from_range, strings_view};

verus! {

/// The prefix of the ids of extracted dynamic functions.
pub const DYNAMIC_FUNC_PREFIX: &'static str = "__dyn_";

/// The field that marks a placeholder object as a dynamic function.
pub const IS_DYNAMIC_MARKER: &'static str = "__is_dynamic";

/// The field of a placeholder object that holds the function's id.
pub const DYNAMIC_ID_FIELD: &'static str = "id";

/// An ASCII letter or digit.
pub open spec fn is_ascii_alnum(c: char) -> bool {
    ('0' <= c && c <= '9') || ('a' <= c && c <= 'z') || ('A' <= c && c <= 'Z')
}

/// `s` with every character that is not an ASCII letter or digit turned into `_`.
pub open spec fn sanitize(s: Seq<char>) -> Seq<char> {
    s.map_values(|c: char| if is_ascii_alnum(c) { c } else { '_' })
}

/// `s` without its leading `-`s.
pub open spec fn strip_dashes(s: Seq<char>) -> Seq<char>
    decreases s.len(),
{
    if s.len() > 0 && s[0] == '-' {
        strip_dashes(s.drop_first())
    } else {
        s
    }
}

/// The name an option's label gives the dynamic functions under it: the label without
/// leading dashes, other characters than ASCII letters and digits turned into `_`.
pub open spec fn clean_label(s: Seq<char>) -> Seq<char> {
    sanitize(strip_dashes(s))
}

fn sanitize_exec(v: &Vec<char>, from: usize) -> (r: Vec<char>)
    requires
        from <= v.len(),
    ensures
        r@ == sanitize(v@.skip(from as int)),
{
    let mut r: Vec<char> = Vec::new();
    let mut i = from;
    while i < v.len()
        invariant
            from <= i <= v.len(),
            r@ == sanitize(v@.subrange(from as int, i as int)),
        decreases v.len() - i,
    {
        let c = v[i];
        let ok = ('0' <= c && c <= '9') || ('a' <= c && c <= 'z') || ('A' <= c && c <= 'Z');
        r.push(if ok { c } else { '_' });
        assert(v@.subrange(from as int, i + 1) =~= v@.subrange(from as int, i as int).push(c));
        i = i + 1;
    }
    assert(v@.subrange(from as int, v.len() as int) =~= v@.skip(from as int));
    r
}

proof fn lemma_strip_dashes(s: Seq<char>, k: int)
    requires
        0 <= k <= s.len(),
        forall|j: int| 0 <= j < k ==> s[j] == '-',
        k == s.len() || s[k] != '-',
    ensures
        strip_dashes(s) == s.skip(k),
    decreases k,
{
    if k == 0 {
        assert(s.skip(0) =~= s);
    } else {
        let t = s.drop_first();
        assert forall|j: int| 0 <= j < k - 1 implies t[j] == '-' by {
            assert(t[j] == s[j + 1]);
        }
        if k - 1 < t.len() {
            assert(t[k - 1] == s[k]);
        }
        lemma_strip_dashes(t, k - 1);
        assert(t.skip(k - 1) =~= s.skip(k));
    }
}

/// The name an option's label gives the dynamic functions under it.
pub fn clean_label_exec(label: &str) -> (r: String)
    ensures
        r@ == clean_label(label@),
{
    let v = chars_of(label);
    let mut k: usize = 0;
    while k < v.len() && v[k] == '-'
        invariant
            v@ == label@,
            k <= v.len(),
            forall|j: int| 0 <= j < k ==> v@[j] == '-',
        decreases v.len() - k,
    {
        k = k + 1;
    }
    proof {
        lemma_strip_dashes(v@, k as int);
    }
    string_from_chars(&sanitize_exec(&v, k))
}

/// The names on the context stack that count for a dynamic function's name: all but
/// `commands`, each sanitised.
pub open spec fn context_parts(stack: Seq<Seq<char>>) -> Seq<Seq<char>>
    decreases stack.len(),
{
    if stack.len() == 0 {
        Seq::<Seq<char>>::empty()
    } else {
        let r = context_parts(stack.drop_last());
        if stack.last() == "commands"@ {
            r
        } else {
            r.push(sanitize(stack.last()))
        }
    }
}

/// The parts joined by `_`.
pub open spec fn join_underscore(p: Seq<Seq<char>>) -> Seq<char>
    decreases p.len(),
{
    if p.len() == 0 {
        Seq::<char>::empty()
    } else if p.len() == 1 {
        p[0]
    } else {
        join_underscore(p.drop_last()) + seq!['_'] + p.last()
    }
}

/// The name of a dynamic function from the names around its call (variables, object keys,
/// option labels), outermost first: the parts other than `commands` joined by `_`, or
/// `dynamic` where there are none.
pub open spec fn context_name(stack: Seq<Seq<char>>) -> Seq<char> {
    let p = context_parts(stack);
    if p.len() == 0 {
        "dynamic"@
    } else {
        join_underscore(p)
    }
}

/// The name of a dynamic function from the names around its call.
pub fn context_name_exec(stack: &Vec<String>) -> (r: String)
    ensures
        r@ == context_name(strings_view(stack@)),
{
    let ghost sv = strings_view(stack@);
    let mut parts: Vec<Vec<char>> = Vec::new();
    let mut i: usize = 0;
    while i < stack.len()
        invariant
            sv == strings_view(stack@),
            i <= stack.len(),
            parts@.map_values(|p: Vec<char>| p@) == context_parts(sv.take(i as int)),
        decreases stack.len() - i,
    {
        assert(sv.take(i + 1).drop_last() =~= sv.take(i as int));
        assert(sv.take(i + 1).last() == stack@[i as int]@);
        if !str_eq(stack[i].as_str(), "commands") {
            let ghost before = parts@.map_values(|p: Vec<char>| p@);
            let v = chars_of(stack[i].as_str());
            parts.push(sanitize_exec(&v, 0));
            assert(v@.skip(0) =~= v@);
            assert(parts@.map_values(|p: Vec<char>| p@) =~= before.push(sanitize(stack@[i as int]@)));
        }
        i = i + 1;
    }
    assert(sv.take(stack.len() as int) =~= sv);
    let ghost pv = parts@.map_values(|p: Vec<char>| p@);
    if parts.len() == 0 {
        return String::from_str("dynamic");
    }
    let mut out: Vec<char> = Vec::new();
    let mut k: usize = 0;
    while k < parts.len()
        invariant
            pv == parts@.map_values(|p: Vec<char>| p@),
            pv.len() > 0,
            k <= parts.len(),
            k > 0 ==> out@ == join_underscore(pv.take(k as int)),
            k == 0 ==> out@.len() == 0,
        decreases parts.len() - k,
    {
        let ghost t = pv.take(k + 1);
        assert(t.drop_last() =~= pv.take(k as int));
        let ghost before = out@;
        if k > 0 {
            out.push('_');
        }
        let p = &parts[k];
        for j in 0..p.len()
            invariant
                out@ == (if k > 0 { before.push('_') } else { before }) + p@.take(j as int),
        {
            out.push(p[j]);
            assert(p@.take(j + 1) =~= p@.take(j as int).push(p@[j as int]));
        }
        assert(p@.take(p.len() as int) =~= p@);
        if k == 0 {
            assert(t =~= seq![pv[0]]);
            assert(out@ =~= pv[0]);
        } else {
            assert(out@ =~= join_underscore(pv.take(k as int)) + seq!['_'] + pv[k as int]);
        }
        k = k + 1;
    }
    assert(pv.take(parts.len() as int) =~= pv);
    string_from_chars(&out)
}

/// How often `x` occurs in `s`.
pub open spec fn occurrences(s: Seq<Seq<char>>, x: Seq<char>) -> nat
    decreases s.len(),
{
    if s.len() == 0 {
        0
    } else {
        occurrences(s.drop_last(), x) + if s.last() == x { 1nat } else { 0nat }
    }
}

/// The id of the `i`-th dynamic function: the prefix and its name, with `_` and a count
/// where functions before it had the same name.
pub open spec fn dynamic_id(names: Seq<Seq<char>>, i: int) -> Seq<char> {
    let n = occurrences(names.take(i), names[i]);
    if n == 0 {
        DYNAMIC_FUNC_PREFIX@ + names[i]
    } else {
        DYNAMIC_FUNC_PREFIX@ + names[i] + seq!['_'] + dec_str(n)
    }
}

/// The ids of the dynamic functions, from their names in source order.
pub fn assign_dynamic_ids(names: &Vec<String>) -> (r: Vec<String>)
    requires
        names@.len() <= u64::MAX,
    ensures
        r@.len() == names@.len(),
        forall|i: int| 0 <= i < names@.len() ==> #[trigger] r@[i]@ == dynamic_id(strings_view(names@), i),
{
    let ghost nv = strings_view(names@);
    let mut r: Vec<String> = Vec::new();
    let mut i: usize = 0;
    while i < names.len()
        invariant
            nv == strings_view(names@),
            names@.len() <= u64::MAX,
            i <= names.len(),
            r@.len() == i,
            forall|k: int| 0 <= k < i ==> #[trigger] r@[k]@ == dynamic_id(nv, k),
        decreases names.len() - i,
    {
        let mut count: u64 = 0;
        let mut j: usize = 0;
        while j < i
            invariant
                nv == strings_view(names@),
                names@.len() <= u64::MAX,
                j <= i < names.len(),
                count == occurrences(nv.take(j as int), nv[i as int]),
                count <= j,
            decreases i - j,
        {
            assert(nv.take(j + 1).drop_last() =~= nv.take(j as int));
            assert(nv.take(j + 1).last() == names@[j as int]@);
            assert(nv[i as int] == names@[i as int]@);
            if str_eq(names[j].as_str(), names[i].as_str()) {
                count = count + 1;
            }
            j = j + 1;
        }
        let mut id = concat(DYNAMIC_FUNC_PREFIX, names[i].as_str());
        assert(nv[i as int] == names@[i as int]@);
        if count > 0 {
            push_char(&mut id, '_');
            let c = dec_string(count);
            push_str(&mut id, c.as_str());
        }
        r.push(id);
        i = i + 1;
    }
    r
}

/// The text that stands in a script for an extracted dynamic function.
pub open spec fn placeholder(id: Seq<char>) -> Seq<char> {
    "{ "@ + IS_DYNAMIC_MARKER@ + ": true, "@ + DYNAMIC_ID_FIELD@ + ": \""@ + id + "\" }"@
}

/// The placeholder object for a dynamic function.
pub fn placeholder_exec(id: &str) -> (r: String)
    ensures
        r@ == placeholder(id@),
{
    let mut s = concat("{ ", IS_DYNAMIC_MARKER);
    push_str(&mut s, ": true, ");
    push_str(&mut s, DYNAMIC_ID_FIELD);
    push_str(&mut s, ": \"");
    push_str(&mut s, id);
    push_str(&mut s, "\" }");
    s
}

/// `s` with the range `start..end` replaced by `t` (`String::replace_range`).
pub open spec fn replace_range(s: Seq<char>, start: int, end: int, t: Seq<char>) -> Seq<char> {
    s.take(start) + t + s.skip(end)
}

/// The text after the replacements are made one after another, each range measured in the
/// text as the earlier ones left it.
pub open spec fn apply_replacements(s: Seq<char>, reps: Seq<(usize, usize, Seq<char>)>) -> Seq<char>
    decreases reps.len(),
{
    if reps.len() == 0 {
        s
    } else {
        let r = apply_replacements(s, reps.drop_last());
        replace_range(r, reps.last().0 as int, reps.last().1 as int, reps.last().2)
    }
}

/// Every replacement's range lies inside the text it is made in.
pub open spec fn replacements_fit(s: Seq<char>, reps: Seq<(usize, usize, Seq<char>)>) -> bool
    decreases reps.len(),
{
    if reps.len() == 0 {
        true
    } else {
        let r = apply_replacements(s, reps.drop_last());
        replacements_fit(s, reps.drop_last()) && reps.last().0 <= reps.last().1 <= r.len()
    }
}

/// The views of replacements.
pub open spec fn reps_view(v: Seq<(usize, usize, String)>) -> Seq<(usize, usize, Seq<char>)> {
    v.map_values(|x: (usize, usize, String)| (x.0, x.1, x.2@))
}

/// `cur` with the characters in `start..end` replaced by `text`.
fn replace_one(cur: &Vec<char>, start: usize, end: usize, text: &Vec<char>) -> (next: Vec<char>)
    requires
        start <= end <= cur@.len(),
    ensures
        next@ == replace_range(cur@, start as int, end as int, text@),
{
    let mut next: Vec<char> = Vec::new();
    for k in 0..start
        invariant
            start <= end <= cur@.len(),
            next@ == cur@.take(k as int),
    {
        next.push(cur[k]);
        assert(cur@.take(k + 1) =~= cur@.take(k as int).push(cur@[k as int]));
    }
    for k in 0..text.len()
        invariant
            start <= end <= cur@.len(),
            next@ == cur@.take(start as int) + text@.take(k as int),
    {
        next.push(text[k]);
        assert(text@.take(k + 1) =~= text@.take(k as int).push(text@[k as int]));
    }
    assert(text@.take(text.len() as int) =~= text@);
    let mut k = end;
    while k < cur.len()
        invariant
            start <= end <= k <= cur@.len(),
            next@ == cur@.take(start as int) + text@ + cur@.subrange(end as int, k as int),
        decreases cur.len() - k,
    {
        next.push(cur[k]);
        assert(cur@.subrange(end as int, k + 1) =~= cur@.subrange(end as int, k as int).push(cur@[k as int]));
        k = k + 1;
    }
    assert(cur@.subrange(end as int, cur@.len() as int) =~= cur@.skip(end as int));
    next
}

/// The text after the replacements (character ranges and new text) are made in order.
pub fn replace_ranges(source: &str, reps: &Vec<(usize, usize, String)>) -> (r: String)
    requires
        replacements_fit(source@, reps_view(reps@)),
    ensures
        r@ == apply_replacements(source@, reps_view(reps@)),
{
    let ghost rv = reps_view(reps@);
    let mut cur = chars_of(source);
    let mut i: usize = 0;
    while i < reps.len()
        invariant
            rv == reps_view(reps@),
            replacements_fit(source@, rv),
            i <= reps.len(),
            cur@ == apply_replacements(source@, rv.take(i as int)),
        decreases reps.len() - i,
    {
        let ghost t = rv.take(i + 1);
        assert(t.drop_last() =~= rv.take(i as int));
        assert(t.last() == rv[i as int]);
        proof {
            lemma_fit_prefix(source@, rv, i + 1);
        }
        let text = chars_of(reps[i].2.as_str());
        cur = replace_one(&cur, reps[i].0, reps[i].1, &text);
        i = i + 1;
    }
    assert(rv.take(reps.len() as int) =~= rv);
    string_from_chars(&cur)
}

/// The text after the replacements are made in order, or none where a replacement's range
/// does not lie inside the text it is made in.
pub fn try_replace_ranges(source: &str, reps: &Vec<(usize, usize, String)>) -> (r: Option<String>)
    ensures
        match r {
            Some(t) => replacements_fit(source@, reps_view(reps@)) && t@ == apply_replacements(source@, reps_view(reps@)),
            None => !replacements_fit(source@, reps_view(reps@)),
        },
{
    let ghost rv = reps_view(reps@);
    let mut cur = chars_of(source);
    let mut i: usize = 0;
    while i < reps.len()
        invariant
            rv == reps_view(reps@),
            i <= reps.len(),
            replacements_fit(source@, rv.take(i as int)),
            cur@ == apply_replacements(source@, rv.take(i as int)),
        decreases reps.len() - i,
    {
        let ghost t = rv.take(i + 1);
        assert(t.drop_last() =~= rv.take(i as int));
        assert(t.last() == rv[i as int]);
        let start = reps[i].0;
        let end = reps[i].1;
        if !(start <= end && end <= cur.len()) {
            proof {
                if replacements_fit(source@, rv) {
                    lemma_fit_prefix(source@, rv, i + 1);
                }
            }
            return None;
        }
        let text = chars_of(reps[i].2.as_str());
        cur = replace_one(&cur, start, end, &text);
        i = i + 1;
    }
    assert(rv.take(reps.len() as int) =~= rv);
    Some(string_from_chars(&cur))
}

proof fn lemma_fit_prefix(s: Seq<char>, reps: Seq<(usize, usize, Seq<char>)>, k: int)
    requires
        replacements_fit(s, reps),
        0 < k <= reps.len(),
    ensures
        reps[k - 1].0 <= reps[k - 1].1 <= apply_replacements(s, reps.take(k - 1)).len(),
    decreases reps.len(),
{
    if k < reps.len() {
        assert(reps.drop_last().take(k - 1) =~= reps.take(k - 1));
        assert(reps.drop_last()[k - 1] == reps[k - 1]);
        lemma_fit_prefix(s, reps.drop_last(), k);
    } else {
        assert(reps.drop_last() =~= reps.take(k - 1));
    }
}

// ---------------------------------------------------------------------------------------
// The smallest module that the dynamic functions need.
// ---------------------------------------------------------------------------------------

/// `p` is a chain of top-level statements from one that a dynamic function uses, each one
/// used by the statement before it.
pub open spec fn is_use_path(deps: Seq<Seq<usize>>, roots: Seq<usize>, p: Seq<int>) -> bool {
    &&& p.len() > 0
    &&& roots.contains(p[0] as usize) && 0 <= p[0] < deps.len()
    &&& forall|k: int| 0 <= k < p.len() ==> 0 <= #[trigger] p[k] < deps.len()
    &&& forall|k: int| 0 <= k < p.len() - 1 ==> deps[p[k]].contains(#[trigger] p[k + 1] as usize)
}

/// Statement `i` is needed: a chain of uses leads to it from a statement that a dynamic
/// function uses.
pub open spec fn is_needed(deps: Seq<Seq<usize>>, roots: Seq<usize>, i: int) -> bool {
    exists|p: Seq<int>| #[trigger] is_use_path(deps, roots, p) && p.last() == i
}

/// How many statements are not marked.
pub open spec fn unmarked(m: Seq<bool>) -> nat
    decreases m.len(),
{
    if m.len() == 0 {
        0
    } else {
        unmarked(m.drop_last()) + if m.last() { 0nat } else { 1nat }
    }
}

proof fn lemma_unmarked_set(m: Seq<bool>, i: int)
    requires
        0 <= i < m.len(),
        !m[i],
    ensures
        unmarked(m.update(i, true)) + 1 == unmarked(m),
    decreases m.len(),
{
    let u = m.update(i, true);
    if i == m.len() - 1 {
        assert(u.drop_last() =~= m.drop_last());
    } else {
        assert(u.drop_last() =~= m.drop_last().update(i, true));
        lemma_unmarked_set(m.drop_last(), i);
    }
}

/// Which statements the dynamic functions need: those they use (`roots`), and everything
/// those use in turn (`deps[i]` lists the statements that statement `i` uses).
pub fn needed_statements(deps: &Vec<Vec<usize>>, roots: &Vec<usize>) -> (r: Vec<bool>)
    ensures
        r@.len() == deps@.len(),
        forall|i: int| 0 <= i < deps@.len() ==> (#[trigger] r@[i] <==> is_needed(deps@.map_values(|d: Vec<usize>| d@), roots@, i)),
{
    let ghost dv = deps@.map_values(|d: Vec<usize>| d@);
    let n = deps.len();
    let mut marked: Vec<bool> = Vec::new();
    for i in 0..n
        invariant
            marked@.len() == i,
            forall|k: int| 0 <= k < i ==> !#[trigger] marked@[k],
    {
        marked.push(false);
    }
    for j in 0..roots.len()
        invariant
            n == deps@.len(),
            dv == deps@.map_values(|d: Vec<usize>| d@),
            marked@.len() == n,
            forall|k: int| 0 <= k < n ==> #[trigger] marked@[k] ==> is_needed(dv, roots@, k),
            forall|k: int| 0 <= k < j ==> roots@[k] < n ==> #[trigger] marked@[roots@[k] as int],
    {
        let x = roots[j];
        if x < n {
            let ghost p = seq![x as int];
            assert(roots@[j as int] == x);
            assert(is_use_path(dv, roots@, p));
            marked.set(x, true);
        }
    }
    let mut changed = true;
    while changed
        invariant
            n == deps@.len(),
            dv == deps@.map_values(|d: Vec<usize>| d@),
            marked@.len() == n,
            forall|k: int| 0 <= k < n ==> #[trigger] marked@[k] ==> is_needed(dv, roots@, k),
            forall|k: int| 0 <= k < roots@.len() ==> roots@[k] < n ==> marked@[#[trigger] roots@[k] as int],
            !changed ==> forall|i: int, e: int| 0 <= i < n && marked@[i] && 0 <= e < dv[i].len() && dv[i][e] < n
                ==> #[trigger] marked@[dv[i][e] as int],
        decreases unmarked(marked@), if changed { 1int } else { 0int },
    {
        changed = false;
        let ghost start_unmarked = unmarked(marked@);
        let mut i: usize = 0;
        while i < n
            invariant
                n == deps@.len(),
                dv == deps@.map_values(|d: Vec<usize>| d@),
                marked@.len() == n,
                i <= n,
                forall|k: int| 0 <= k < n ==> #[trigger] marked@[k] ==> is_needed(dv, roots@, k),
                forall|k: int| 0 <= k < roots@.len() ==> roots@[k] < n ==> marked@[#[trigger] roots@[k] as int],
                !changed ==> unmarked(marked@) == start_unmarked,
                changed ==> unmarked(marked@) < start_unmarked,
                !changed ==> forall|a: int, e: int| 0 <= a < i && marked@[a] && 0 <= e < dv[a].len() && dv[a][e] < n
                    ==> #[trigger] marked@[dv[a][e] as int],
            decreases n - i,
        {
            if marked[i] {
                let d = &deps[i];
                assert(dv[i as int] == d@);
                let mut e: usize = 0;
                while e < d.len()
                    invariant
                        n == deps@.len(),
                        dv == deps@.map_values(|d: Vec<usize>| d@),
                        i < n,
                        *d == deps@[i as int],
                        dv[i as int] == d@,
                        marked@.len() == n,
                        marked@[i as int],
                        e <= d.len(),
                        forall|k: int| 0 <= k < n ==> #[trigger] marked@[k] ==> is_needed(dv, roots@, k),
                        forall|k: int| 0 <= k < roots@.len() ==> roots@[k] < n ==> marked@[#[trigger] roots@[k] as int],
                        !changed ==> unmarked(marked@) == start_unmarked,
                        changed ==> unmarked(marked@) < start_unmarked,
                        !changed ==> forall|a: int, e2: int| 0 <= a < i && marked@[a] && 0 <= e2 < dv[a].len() && dv[a][e2] < n
                            ==> #[trigger] marked@[dv[a][e2] as int],
                        !changed ==> forall|e2: int| 0 <= e2 < e && dv[i as int][e2] < n ==> #[trigger] marked@[dv[i as int][e2] as int],
                    decreases d.len() - e,
                {
                    let y = d[e];
                    if y < n && !marked[y] {
                        proof {
                            let p = choose|p: Seq<int>| #[trigger] is_use_path(dv, roots@, p) && p.last() == i as int;
                            let q = p.push(y as int);
                            assert(dv[i as int].contains(y));
                            assert forall|k: int| 0 <= k < q.len() - 1 implies dv[q[k]].contains(#[trigger] q[k + 1] as usize) by {
                                if k < p.len() - 1 {
                                    assert(q[k] == p[k] && q[k + 1] == p[k + 1]);
                                } else {
                                    assert(q[k] == i as int);
                                    assert(q[k + 1] == y as int);
                                }
                            }
                            assert(is_use_path(dv, roots@, q));
                            lemma_unmarked_set(marked@, y as int);
                        }
                        marked.set(y, true);
                        changed = true;
                    }
                    e = e + 1;
                }
            }
            i = i + 1;
        }
    }
    proof {
        assert forall|i: int| 0 <= i < n implies (#[trigger] marked@[i] <==> is_needed(dv, roots@, i)) by {
            if is_needed(dv, roots@, i) {
                let p = choose|p: Seq<int>| #[trigger] is_use_path(dv, roots@, p) && p.last() == i;
                lemma_path_marked(dv, roots@, marked@, p, p.len() - 1);
            }
        }
    }
    marked
}

proof fn lemma_path_marked(deps: Seq<Seq<usize>>, roots: Seq<usize>, m: Seq<bool>, p: Seq<int>, k: int)
    requires
        is_use_path(deps, roots, p),
        0 <= k < p.len(),
        deps.len() <= usize::MAX,
        m.len() == deps.len(),
        forall|j: int| 0 <= j < roots.len() ==> roots[j] < deps.len() ==> m[#[trigger] roots[j] as int],
        forall|i: int, e: int| 0 <= i < deps.len() && m[i] && 0 <= e < deps[i].len() && deps[i][e] < deps.len()
            ==> #[trigger] m[deps[i][e] as int],
    ensures
        m[p[k]],
    decreases k,
{
    if k == 0 {
        let j = choose|j: int| 0 <= j < roots.len() && roots[j] == p[0] as usize;
        assert(m[roots[j] as int]);
        assert(roots[j] as int == p[0]);
    } else {
        lemma_path_marked(deps, roots, m, p, k - 1);
        let j = k - 1;
        assert(deps[p[j]].contains(p[j + 1] as usize));
        assert(p[j + 1] == p[k]);
        let d = deps[p[k - 1]];
        let e = choose|e: int| 0 <= e < d.len() && #[trigger] d[e] == p[k] as usize;
        assert(m[deps[p[k - 1]][e] as int]);
    }
}

/// Index `x` comes before index `y` when calls are rewritten from the back: the later start
/// first, and of equal starts the earlier call.
pub open spec fn later_first(starts: Seq<usize>, x: int, y: int) -> bool {
    starts[x] > starts[y] || (starts[x] == starts[y] && x < y)
}

/// `r` lists the calls in the order they are rewritten.
pub open spec fn is_rewrite_order(starts: Seq<usize>, r: Seq<int>) -> bool {
    &&& crate::order::is_perm(r, starts.len() as int)
    &&& forall|a: int, b: int| 0 <= a < b < r.len() ==> later_first(starts, #[trigger] r[a], #[trigger] r[b])
}

/// The order in which the calls are rewritten: by start, from the back.
pub open spec fn rewrite_order(starts: Seq<usize>) -> Seq<int> {
    choose|r: Seq<int>| is_rewrite_order(starts, r)
}

proof fn lemma_rewrite_order_unique(starts: Seq<usize>, r1: Seq<int>, r2: Seq<int>)
    requires
        is_rewrite_order(starts, r1),
        is_rewrite_order(starts, r2),
    ensures
        r1 == r2,
{
    let n = starts.len() as int;
    if r1 != r2 {
        assert(!(r1 =~= r2));
        let k = choose|k: int| 0 <= k < n && r1[k] != r2[k];
        lemma_first_diff(r1, r2, k);
        let d = choose|d: int| 0 <= d < n && r1[d] != r2[d] && forall|j: int| 0 <= j < d ==> r1[j] == r2[j];
        let x1 = r1[d];
        let x2 = r2[d];
        assert(crate::order::lists(r2, x1));
        assert(crate::order::lists(r1, x2));
        let m2 = choose|m: int| 0 <= m < n && r2[m] == x1;
        let m1 = choose|m: int| 0 <= m < n && r1[m] == x2;
        if m2 < d {
            assert(r1[m2] == r2[m2]);
            assert(r1[m2] != r1[d]);
        }
        if m1 < d {
            assert(r2[m1] == r1[m1]);
            assert(r2[m1] != r2[d]);
        }
        assert(later_first(starts, x2, x1)) by {
            assert(r2[d] == x2 && r2[m2] == x1);
        }
        assert(later_first(starts, x1, x2)) by {
            assert(r1[d] == x1 && r1[m1] == x2);
        }
    }
}

proof fn lemma_first_diff(r1: Seq<int>, r2: Seq<int>, k: int)
    requires
        0 <= k < r1.len(),
        r1.len() == r2.len(),
        r1[k] != r2[k],
    ensures
        exists|d: int| 0 <= d < r1.len() && r1[d] != r2[d] && forall|j: int| 0 <= j < d ==> r1[j] == r2[j],
    decreases k,
{
    if exists|j: int| 0 <= j < k && r1[j] != r2[j] {
        let j = choose|j: int| 0 <= j < k && r1[j] != r2[j];
        lemma_first_diff(r1, r2, j);
    } else {
        assert(0 <= k < r1.len() && r1[k] != r2[k] && forall|j: int| 0 <= j < k ==> r1[j] == r2[j]);
    }
}

/// The order in which the calls are rewritten: by start, from the back.
pub fn rewrite_order_exec(starts: &Vec<usize>) -> (r: Vec<usize>)
    ensures
        crate::order::idx_view(r@) == rewrite_order(starts@),
        is_rewrite_order(starts@, crate::order::idx_view(r@)),
{
    let ghost ks = starts@;
    let mut r: Vec<usize> = Vec::new();
    let mut i: usize = 0;
    while i < starts.len()
        invariant
            ks == starts@,
            i <= starts.len(),
            r@.len() == i,
            forall|k: int| 0 <= k < i ==> #[trigger] r@[k] < i,
            forall|a: int, b: int| 0 <= a < b < i ==> r@[a] != r@[b],
            forall|x: int| 0 <= x < i ==> #[trigger] crate::order::lists(crate::order::idx_view(r@), x),
            forall|a: int, b: int| 0 <= a < b < i ==> later_first(ks, #[trigger] r@[a] as int, #[trigger] r@[b] as int),
        decreases starts.len() - i,
    {
        let mut j: usize = 0;
        while j < r.len() && !(starts[i] > starts[r[j]])
            invariant
                ks == starts@,
                i < starts.len(),
                r@.len() == i,
                j <= i,
                forall|k: int| 0 <= k < i ==> #[trigger] r@[k] < i,
                forall|k: int| 0 <= k < j ==> !(ks[i as int] > ks[#[trigger] r@[k] as int]),
            decreases i - j,
        {
            j = j + 1;
        }
        let ghost old_r = r@;
        proof {
            assert forall|k: int| 0 <= k < j implies later_first(ks, #[trigger] old_r[k] as int, i as int) by {}
            if j < i {
                assert forall|k: int| j <= k < i implies later_first(ks, i as int, #[trigger] old_r[k] as int) by {
                    if k > j {
                        assert(later_first(ks, old_r[j as int] as int, old_r[k] as int));
                    }
                }
            }
        }
        r.insert(j, i);
        assert(r@ =~= old_r.insert(j as int, i));
        proof {
            assert forall|x: int| 0 <= x < i + 1 implies #[trigger] crate::order::lists(crate::order::idx_view(r@), x) by {
                if x == i {
                    assert(crate::order::idx_view(r@)[j as int] == x);
                } else {
                    assert(crate::order::lists(crate::order::idx_view(old_r), x));
                    let k = choose|k: int| 0 <= k < i && crate::order::idx_view(old_r)[k] == x;
                    if k < j {
                        assert(crate::order::idx_view(r@)[k] == x);
                    } else {
                        assert(crate::order::idx_view(r@)[k + 1] == x);
                    }
                }
            }
            assert forall|a: int, b: int| 0 <= a < b < i + 1 implies later_first(ks, #[trigger] r@[a] as int, #[trigger] r@[b] as int) by {
                if a < j && b < j {
                } else if a < j && b == j {
                } else if a < j && b > j {
                    assert(r@[b] == old_r[b - 1]);
                } else if a == j {
                    assert(r@[b] == old_r[b - 1]);
                } else {
                    assert(r@[a] == old_r[a - 1]);
                    assert(r@[b] == old_r[b - 1]);
                }
            }
        }
        i = i + 1;
    }
    proof {
        let iv = crate::order::idx_view(r@);
        assert forall|a: int, b: int| 0 <= a < b < iv.len() implies later_first(ks, #[trigger] iv[a], #[trigger] iv[b]) by {
            assert(iv[a] == r@[a] as int && iv[b] == r@[b] as int);
        }
        assert forall|k: int| 0 <= k < iv.len() implies 0 <= #[trigger] iv[k] < iv.len() by {
            assert(iv[k] == r@[k] as int);
        }
        assert forall|a: int, b: int| 0 <= a < b < iv.len() implies iv[a] != iv[b] by {
            assert(iv[a] == r@[a] as int && iv[b] == r@[b] as int);
        }
        assert(is_rewrite_order(ks, iv));
        lemma_rewrite_order_unique(ks, iv, rewrite_order(ks));
    }
    r
}

/// A call of `dynamic(..)` in a script: the range of the call, the range of its argument
/// (character positions), and the names around it, outermost first.
pub struct DynamicCall {
    pub start: usize,
    pub end: usize,
    pub arg_start: usize,
    pub arg_end: usize,
    pub context: Vec<String>,
}

/// A top-level statement of a script: its range and whether it is an `import`.
pub struct TopStatement {
    pub start: usize,
    pub end: usize,
    pub is_import: bool,
}

/// The names of the calls' functions.
pub open spec fn call_names(calls: Seq<DynamicCall>) -> Seq<Seq<char>> {
    calls.map_values(|c: DynamicCall| context_name(strings_view(c.context@)))
}

/// The starts of the calls.
pub open spec fn call_starts(calls: Seq<DynamicCall>) -> Seq<usize> {
    calls.map_values(|c: DynamicCall| c.start)
}

/// The replacements that put a placeholder in place of each call, from the back.
pub open spec fn call_replacements(calls: Seq<DynamicCall>) -> Seq<(usize, usize, Seq<char>)> {
    let r = rewrite_order(call_starts(calls));
    Seq::new(r.len(), |k: int| (calls[r[k]].start, calls[r[k]].end, placeholder(dynamic_id(call_names(calls), r[k]))))
}

/// The script with every `dynamic(..)` call replaced by a placeholder naming its function.
pub open spec fn rewritten_source(source: Seq<char>, calls: Seq<DynamicCall>) -> Seq<char> {
    apply_replacements(source, call_replacements(calls))
}

/// The kept statements of the module, each followed by a line feed.
pub open spec fn kept_statements(source: Seq<char>, stmts: Seq<TopStatement>, needed: Seq<bool>, n: int) -> Seq<char>
    decreases n,
{
    if n <= 0 {
        Seq::<char>::empty()
    } else {
        let prev = kept_statements(source, stmts, needed, n - 1);
        let s = stmts[n - 1];
        if s.is_import || needed[n - 1] {
            prev + source.subrange(s.start as int, s.end as int) + seq!['\n']
        } else {
            prev
        }
    }
}

/// The exports of the first `n` functions, each under its id: `export const <id> = <arg>;`.
pub open spec fn function_exports(source: Seq<char>, calls: Seq<DynamicCall>, ids: Seq<Seq<char>>, n: int) -> Seq<char>
    decreases n,
{
    if n <= 0 {
        Seq::<char>::empty()
    } else {
        let c = calls[n - 1];
        function_exports(source, calls, ids, n - 1) + "export const "@ + ids[n - 1] + " = "@
            + source.subrange(c.arg_start as int, c.arg_end as int) + ";\n"@
    }
}

/// The ids of the calls' functions, in order.
pub open spec fn call_ids(calls: Seq<DynamicCall>) -> Seq<Seq<char>> {
    Seq::new(calls.len(), |i: int| dynamic_id(call_names(calls), i))
}

/// Whether statement `i` is needed by the functions.
pub open spec fn needed_flags(deps: Seq<Seq<usize>>, roots: Seq<usize>) -> Seq<bool> {
    Seq::new(deps.len(), |i: int| is_needed(deps, roots, i))
}

/// The module of the dynamic functions under the given ids: the imports and the statements
/// they need, in order, a blank line, and one export per function.
pub open spec fn minimal_module(
    source: Seq<char>,
    calls: Seq<DynamicCall>,
    ids: Seq<Seq<char>>,
    stmts: Seq<TopStatement>,
    deps: Seq<Seq<usize>>,
    roots: Seq<usize>,
) -> Seq<char> {
    kept_statements(source, stmts, needed_flags(deps, roots), stmts.len() as int) + seq!['\n']
        + function_exports(source, calls, ids, calls.len() as int)
}

/// The module of the dynamic functions, each exported under the id made from its name.
pub open spec fn dynamic_module(source: Seq<char>, calls: Seq<DynamicCall>, stmts: Seq<TopStatement>, deps: Seq<Seq<usize>>, roots: Seq<usize>) -> Seq<char> {
    minimal_module(source, calls, call_ids(calls), stmts, deps, roots)
}

/// Every range lies in the source.
pub open spec fn ranges_fit(source: Seq<char>, calls: Seq<DynamicCall>, stmts: Seq<TopStatement>) -> bool {
    &&& forall|i: int| 0 <= i < calls.len() ==> (#[trigger] calls[i]).arg_start <= calls[i].arg_end <= source.len()
    &&& forall|i: int| 0 <= i < stmts.len() ==> (#[trigger] stmts[i]).start <= stmts[i].end <= source.len()
}

/// What is taken out of a script: the script with placeholders, the module of its dynamic
/// functions, and their ids.
pub struct Extraction {
    pub modified_source: String,
    pub dynamic_js: String,
    pub func_ids: Vec<String>,
}

/// The id of each `dynamic(..)` call and the rewrites of the script that replace the calls by
/// their placeholders, in the order they are made.
fn dynamic_replacements(calls: &Vec<DynamicCall>) -> (r: (Vec<String>, Vec<(usize, usize, String)>))
    requires
        calls@.len() <= u64::MAX,
    ensures
        r.0@.len() == calls@.len(),
        forall|i: int| 0 <= i < calls@.len() ==> #[trigger] r.0@[i]@ == dynamic_id(call_names(calls@), i),
        reps_view(r.1@) == call_replacements(calls@),
{
    let ghost names = call_names(calls@);
    let mut name_list: Vec<String> = Vec::new();
    let mut starts: Vec<usize> = Vec::new();
    for i in 0..calls.len()
        invariant
            names == call_names(calls@),
            strings_view(name_list@) == names.take(i as int),
            starts@ == call_starts(calls@).take(i as int),
    {
        let n = context_name_exec(&calls[i].context);
        let ghost before = strings_view(name_list@);
        name_list.push(n);
        assert(strings_view(name_list@) =~= before.push(names[i as int]));
        assert(names.take(i + 1) =~= names.take(i as int).push(names[i as int]));
        starts.push(calls[i].start);
        assert(call_starts(calls@).take(i + 1) =~= call_starts(calls@).take(i as int).push(calls@[i as int].start));
    }
    assert(names.take(calls.len() as int) =~= names);
    assert(call_starts(calls@).take(calls.len() as int) =~= call_starts(calls@));
    let ids = assign_dynamic_ids(&name_list);
    let order = rewrite_order_exec(&starts);
    let ghost ord = crate::order::idx_view(order@);
    let mut reps: Vec<(usize, usize, String)> = Vec::new();
    for k in 0..order.len()
        invariant
            ord == crate::order::idx_view(order@),
            ord == rewrite_order(call_starts(calls@)),
            is_rewrite_order(call_starts(calls@), ord),
            ids@.len() == calls@.len(),
            forall|i: int| 0 <= i < calls@.len() ==> #[trigger] ids@[i]@ == dynamic_id(call_names(calls@), i),
            reps_view(reps@) == call_replacements(calls@).take(k as int),
    {
        assert(ord[k as int] == order@[k as int] as int);
        let x = order[k];
        let p = placeholder_exec(ids[x].as_str());
        let ghost before = reps_view(reps@);
        reps.push((calls[x].start, calls[x].end, p));
        assert(reps_view(reps@) =~= before.push(call_replacements(calls@)[k as int]));
        assert(call_replacements(calls@).take(k + 1) =~= call_replacements(calls@).take(k as int).push(call_replacements(calls@)[k as int]));
    }
    assert(call_replacements(calls@).take(order.len() as int) =~= call_replacements(calls@));
    (ids, reps)
}

/// Takes the dynamic functions out of a script, given what its syntax tree shows: the
/// `dynamic(..)` calls in source order, the top-level statements, which statements each
/// statement uses (`deps`, one list per statement) and which statements the calls' arguments
/// use (`roots`).
pub fn extract_dynamics(
    source: &str,
    calls: &Vec<DynamicCall>,
    stmts: &Vec<TopStatement>,
    deps: &Vec<Vec<usize>>,
    roots: &Vec<usize>,
) -> (r: Extraction)
    requires
        ranges_fit(source@, calls@, stmts@),
        replacements_fit(source@, call_replacements(calls@)),
        stmts@.len() == deps@.len(),
        calls@.len() <= u64::MAX,
    ensures
        r.modified_source@ == rewritten_source(source@, calls@),
        r.dynamic_js@ == dynamic_module(source@, calls@, stmts@, deps@.map_values(|d: Vec<usize>| d@), roots@),
        r.func_ids@.len() == calls@.len(),
        forall|i: int| 0 <= i < calls@.len() ==> #[trigger] r.func_ids@[i]@ == dynamic_id(call_names(calls@), i),
{
    let (ids, reps) = dynamic_replacements(calls);
    let modified_source = replace_ranges(source, &reps);
    proof {
        assert(strings_view(ids@) =~= call_ids(calls@));
    }
    let dynamic_js = generate_minimal_dynamic_module(source, calls, &ids, stmts, deps, roots);
    Extraction { modified_source, dynamic_js, func_ids: ids }
}

/// Takes the dynamic functions out of a script as [`extract_dynamics`] does, where the
/// rewrite of its calls fits the script; none where a call's range, as the rewrites before it
/// left the script, lies outside it (nested calls can shift it so).
pub fn try_extract_dynamics(
    source: &str,
    calls: &Vec<DynamicCall>,
    stmts: &Vec<TopStatement>,
    deps: &Vec<Vec<usize>>,
    roots: &Vec<usize>,
) -> (r: Option<Extraction>)
    requires
        ranges_fit(source@, calls@, stmts@),
        stmts@.len() == deps@.len(),
        calls@.len() <= u64::MAX,
    ensures
        match r {
            Some(x) => {
                &&& replacements_fit(source@, call_replacements(calls@))
                &&& x.modified_source@ == rewritten_source(source@, calls@)
                &&& x.dynamic_js@ == dynamic_module(source@, calls@, stmts@, deps@.map_values(|d: Vec<usize>| d@), roots@)
                &&& x.func_ids@.len() == calls@.len()
                &&& forall|i: int| 0 <= i < calls@.len() ==> #[trigger] x.func_ids@[i]@ == dynamic_id(call_names(calls@), i)
            },
            None => !replacements_fit(source@, call_replacements(calls@)),
        },
{
    let (ids, reps) = dynamic_replacements(calls);
    match try_replace_ranges(source, &reps) {
        None => None,
        Some(modified_source) => {
            proof {
                assert(strings_view(ids@) =~= call_ids(calls@));
            }
            let dynamic_js = generate_minimal_dynamic_module(source, calls, &ids, stmts, deps, roots);
            Some(Extraction { modified_source, dynamic_js, func_ids: ids })
        },
    }
}

/// The module of a script's dynamic functions, given its `dynamic(..)` calls, the id each
/// function is exported under, the top-level statements, which statements each statement uses,
/// and which statements the calls' arguments use: the imports and the statements the
/// functions need (directly or through other statements), in order, each on its own line; a
/// blank line; then `export const <id> = <argument>;` for each call.
pub fn generate_minimal_dynamic_module(
    source: &str,
    calls: &Vec<DynamicCall>,
    ids: &Vec<String>,
    stmts: &Vec<TopStatement>,
    deps: &Vec<Vec<usize>>,
    roots: &Vec<usize>,
) -> (r: String)
    requires
        ranges_fit(source@, calls@, stmts@),
        stmts@.len() == deps@.len(),
        ids@.len() == calls@.len(),
    ensures
        r@ == minimal_module(source@, calls@, strings_view(ids@), stmts@, deps@.map_values(|d: Vec<usize>| d@), roots@),
{
    let needed = needed_statements(deps, roots);
    let ghost dv = deps@.map_values(|d: Vec<usize>| d@);
    let src = chars_of(source);
    let mut out: Vec<char> = Vec::new();
    let mut i: usize = 0;
    while i < stmts.len()
        invariant
            src@ == source@,
            ranges_fit(source@, calls@, stmts@),
            stmts@.len() == deps@.len(),
            needed@.len() == deps@.len(),
            dv == deps@.map_values(|d: Vec<usize>| d@),
            forall|k: int| 0 <= k < deps@.len() ==> (#[trigger] needed@[k] <==> is_needed(dv, roots@, k)),
            i <= stmts.len(),
            out@ == kept_statements(source@, stmts@, needed_flags(dv, roots@), i as int),
        decreases stmts.len() - i,
    {
        let s = &stmts[i];
        assert(needed_flags(dv, roots@)[i as int] == needed@[i as int]);
        if s.is_import || needed[i] {
            let ghost before = out@;
            let mut k = s.start;
            while k < s.end
                invariant
                    src@ == source@,
                    s.start <= k <= s.end <= src@.len(),
                    out@ == before + src@.subrange(s.start as int, k as int),
                decreases s.end - k,
            {
                out.push(src[k]);
                assert(src@.subrange(s.start as int, k + 1) =~= src@.subrange(s.start as int, k as int).push(src@[k as int]));
                k = k + 1;
            }
            out.push('\n');
        }
        i = i + 1;
    }
    out.push('\n');
    let ghost mid = out@;
    let mut text = string_from_chars(&out);
    let mut j: usize = 0;
    while j < calls.len()
        invariant
            src@ == source@,
            ranges_fit(source@, calls@, stmts@),
            ids@.len() == calls@.len(),
            j <= calls.len(),
            text@ == mid + function_exports(source@, calls@, strings_view(ids@), j as int),
        decreases calls.len() - j,
    {
        let c = &calls[j];
        push_str(&mut text, "export const ");
        push_str(&mut text, ids[j].as_str());
        push_str(&mut text, " = ");
        let arg = string_from_range(&src, c.arg_start, c.arg_end);
        push_str(&mut text, arg.as_str());
        push_str(&mut text, ";\n");
        j = j + 1;
    }
    text
}

/// The sugg APIs whose use in a dynamic function is reported.
pub open spec fn sugg_apis() -> Seq<Seq<char>> {
    seq!["exec"@, "execFile"@, "scanPath"@, "readFile"@, "readJson"@, "fetch"@, "cache"@, "ui"@]
}

/// Whether a name is one of the sugg APIs.
pub fn is_sugg_api(name: &str) -> (r: bool)
    ensures
        r == sugg_apis().contains(name@),
{
    let apis = ["exec", "execFile", "scanPath", "readFile", "readJson", "fetch", "cache", "ui"];
    let mut i: usize = 0;
    while i < 8
        invariant
            i <= 8,
            apis@.map_values(|s: &str| s@) == sugg_apis(),
            forall|k: int| 0 <= k < i ==> sugg_apis()[k] != name@,
        decreases 8 - i,
    {
        assert(apis@.map_values(|s: &str| s@)[i as int] == apis@[i as int]@);
        if str_eq(apis[i], name) {
            assert(sugg_apis()[i as int] == name@);
            return true;
        }
        i = i + 1;
    }
    false
}

/// The sugg APIs that a dynamic function uses.
pub struct ApiUsage {
    pub name: String,
    pub apis: Vec<String>,
}

/// The sugg APIs among the names a function refers to, each once, in order of first use.
pub open spec fn used_apis(refs: Seq<Seq<char>>) -> Seq<Seq<char>>
    decreases refs.len(),
{
    if refs.len() == 0 {
        Seq::<Seq<char>>::empty()
    } else {
        let prev = used_apis(refs.drop_last());
        if sugg_apis().contains(refs.last()) && !prev.contains(refs.last()) {
            prev.push(refs.last())
        } else {
            prev
        }
    }
}

/// Whether `s` starts with `p`.
pub open spec fn starts_with(s: Seq<char>, p: Seq<char>) -> bool {
    p.len() <= s.len() && s.take(p.len() as int) == p
}

/// The API use of the exported dynamic functions (those whose name has the dynamic prefix),
/// in order.
pub open spec fn api_report(exports: Seq<(Seq<char>, Seq<Seq<char>>)>) -> Seq<(Seq<char>, Seq<Seq<char>>)>
    decreases exports.len(),
{
    if exports.len() == 0 {
        Seq::<(Seq<char>, Seq<Seq<char>>)>::empty()
    } else {
        let prev = api_report(exports.drop_last());
        let e = exports.last();
        if starts_with(e.0, DYNAMIC_FUNC_PREFIX@) {
            prev.push((e.0, used_apis(e.1)))
        } else {
            prev
        }
    }
}

/// The views of API reports.
pub open spec fn usages_view(v: Seq<ApiUsage>) -> Seq<(Seq<char>, Seq<Seq<char>>)> {
    v.map_values(|u: ApiUsage| (u.name@, strings_view(u.apis@)))
}

/// The views of exports and the names they refer to.
pub open spec fn exports_view(v: Seq<(String, Vec<String>)>) -> Seq<(Seq<char>, Seq<Seq<char>>)> {
    v.map_values(|e: (String, Vec<String>)| (e.0@, strings_view(e.1@)))
}

fn contains_string(v: &Vec<String>, s: &String) -> (b: bool)
    ensures
        b == strings_view(v@).contains(s@),
{
    let mut i: usize = 0;
    while i < v.len()
        invariant
            i <= v.len(),
            forall|j: int| 0 <= j < i ==> v@[j]@ != s@,
        decreases v.len() - i,
    {
        if str_eq(v[i].as_str(), s.as_str()) {
            assert(strings_view(v@)[i as int] == s@);
            return true;
        }
        i = i + 1;
    }
    assert forall|j: int| 0 <= j < strings_view(v@).len() implies strings_view(v@)[j] != s@ by {
        assert(strings_view(v@)[j] == v@[j]@);
    }
    false
}

/// Which sugg APIs each exported dynamic function of a module uses, given the module's text
/// and, per exported constant, the names its value refers to: nothing for a blank module.
pub fn analyze_dynamic_apis(dynamic_js: &str, exports: &Vec<(String, Vec<String>)>) -> (r: Vec<ApiUsage>)
    ensures
        crate::text::trim(dynamic_js@).len() == 0 ==> r@.len() == 0,
        crate::text::trim(dynamic_js@).len() > 0 ==> usages_view(r@) == api_report(exports_view(exports@)),
{
    let t = crate::text::trim_chars(&chars_of(dynamic_js));
    if t.len() == 0 {
        return Vec::new();
    }
    let ghost ev = exports_view(exports@);
    let mut out: Vec<ApiUsage> = Vec::new();
    let mut i: usize = 0;
    while i < exports.len()
        invariant
            ev == exports_view(exports@),
            i <= exports.len(),
            usages_view(out@) == api_report(ev.take(i as int)),
        decreases exports.len() - i,
    {
        assert(ev.take(i + 1).drop_last() =~= ev.take(i as int));
        assert(ev.take(i + 1).last() == (exports@[i as int].0@, strings_view(exports@[i as int].1@)));
        let (name, refs) = (&exports[i].0, &exports[i].1);
        if crate::text::str_starts_with(name.as_str(), DYNAMIC_FUNC_PREFIX) {
            let mut apis: Vec<String> = Vec::new();
            let mut k: usize = 0;
            while k < refs.len()
                invariant
                    i < exports.len(),
                    *refs == exports@[i as int].1,
                    k <= refs.len(),
                    strings_view(apis@) == used_apis(strings_view(refs@).take(k as int)),
                decreases refs.len() - k,
            {
                let ghost tk = strings_view(refs@).take(k + 1);
                assert(tk.drop_last() =~= strings_view(refs@).take(k as int));
                assert(tk.last() == refs@[k as int]@);
                if is_sugg_api(refs[k].as_str()) && !contains_string(&apis, &refs[k]) {
                    let ghost before = strings_view(apis@);
                    apis.push(refs[k].clone());
                    assert(strings_view(apis@) =~= before.push(refs@[k as int]@));
                }
                k = k + 1;
            }
            assert(strings_view(refs@).take(refs.len() as int) =~= strings_view(refs@));
            let ghost before = usages_view(out@);
            out.push(ApiUsage { name: name.clone(), apis });
            assert(usages_view(out@) =~= before.push((name@, used_apis(strings_view(refs@)))));
        }
        i = i + 1;
    }
    assert(ev.take(exports.len() as int) =~= ev);
    out
}

/// The name an object's `labels` give the dynamic functions inside it: the first label that
/// is not empty once cleaned, cleaned.
pub open spec fn label_context(labels: Seq<Seq<char>>) -> Option<Seq<char>>
    decreases labels.len(),
{
    if labels.len() == 0 {
        None
    } else if clean_label(labels[0]).len() > 0 {
        Some(clean_label(labels[0]))
    } else {
        label_context(labels.drop_first())
    }
}

/// The name an object's string labels give the dynamic functions inside it.
pub fn label_context_exec(labels: &Vec<String>) -> (r: Option<String>)
    ensures
        match r {
            Some(n) => label_context(strings_view(labels@)) == Some(n@),
            None => label_context(strings_view(labels@)) is None,
        },
{
    let ghost lv = strings_view(labels@);
    let mut i: usize = 0;
    assert(lv.skip(0) =~= lv);
    while i < labels.len()
        invariant
            lv == strings_view(labels@),
            i <= labels.len(),
            label_context(lv) == label_context(lv.skip(i as int)),
        decreases labels.len() - i,
    {
        let c = clean_label_exec(labels[i].as_str());
        let ghost rest = lv.skip(i as int);
        assert(rest[0] == labels@[i as int]@);
        if c.unicode_len() > 0 {
            return Some(c);
        }
        assert(rest.drop_first() =~= lv.skip(i + 1));
        i = i + 1;
    }
    assert(lv.skip(labels.len() as int) =~= Seq::<Seq<char>>::empty());
    None
}

/// A diagnostic of the bundler with the virtual-module prefixes taken out of file names.
pub fn clean_diagnostic(msg: &str) -> (r: String)
    ensures
        r@ == crate::text::replace_all(crate::text::replace_all(msg@, "__v_stat_"@, Seq::<char>::empty()), "__v_dyn_"@, Seq::<char>::empty()),
{
    proof {
        reveal_strlit("__v_stat_");
        reveal_strlit("__v_dyn_");
        reveal_strlit("");
        assert(""@ =~= Seq::<char>::empty());
    }
    let a = crate::text::replace_str(msg, "__v_stat_", "");
    crate::text::replace_str(a.as_str(), "__v_dyn_", "")
}

} // verus!
