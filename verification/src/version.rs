use vstd::prelude::*;
use crate::text::chars_of;

verus! {

/// Whether `c` is an ASCII digit.
pub open spec fn is_digit(c: char) -> bool {
    '0' <= c && c <= '9'
}

/// The value of a string of decimal digits.
pub open spec fn digits_value(d: Seq<char>) -> nat
    decreases d.len(),
{
    if d.len() == 0 {
        0
    } else {
        digits_value(d.drop_last()) * 10 + ((d.last() as u32) - ('0' as u32)) as nat
    }
}

/// `s` without one leading `+`.
pub open spec fn strip_plus(s: Seq<char>) -> Seq<char> {
    if s.len() > 0 && s[0] == '+' {
        s.drop_first()
    } else {
        s
    }
}

/// The value of a non-empty string of decimal digits, if it fits in a `u64`.
pub open spec fn digits_u64(d: Seq<char>) -> Option<u64> {
    if d.len() > 0 && (forall|i: int| 0 <= i < d.len() ==> is_digit(d[i])) && digits_value(d)
        <= u64::MAX {
        Some(digits_value(d) as u64)
    } else {
        None
    }
}

/// What `u64::from_str` gives: an optional `+`, then at least one decimal digit, with a
/// value that fits.
pub open spec fn parse_u64(s: Seq<char>) -> Option<u64> {
    digits_u64(strip_plus(s))
}

proof fn lemma_digits_value_grows(d: Seq<char>, k: int)
    requires
        0 <= k <= d.len(),
        forall|i: int| 0 <= i < d.len() ==> is_digit(d[i]),
    ensures
        digits_value(d.take(k)) <= digits_value(d),
    decreases d.len() - k,
{
    if k < d.len() {
        lemma_digits_value_grows(d, k + 1);
        let t = d.take(k + 1);
        assert(t.drop_last() == d.take(k));
        assert(is_digit(t.last()));
    } else {
        assert(d.take(k) == d);
    }
}

/// Parses `v[from..to]` as `u64::from_str` does.
pub fn parse_u64_range(v: &Vec<char>, from: usize, to: usize) -> (r: Option<u64>)
    requires
        from <= to <= v.len(),
    ensures
        r == parse_u64(v@.subrange(from as int, to as int)),
{
    let ghost s = v@.subrange(from as int, to as int);
    let mut a = from;
    if a < to && v[a] == '+' {
        a = a + 1;
    }
    let ghost d = v@.subrange(a as int, to as int);
    assert(d == strip_plus(s));
    if a == to {
        return None;
    }
    let mut val: u64 = 0;
    let mut i = a;
    assert(d.take(0) =~= Seq::<char>::empty());
    while i < to
        invariant
            from <= a <= i <= to <= v.len(),
            d == v@.subrange(a as int, to as int),
            s == v@.subrange(from as int, to as int),
            d == strip_plus(s),
            a < to,
            val == digits_value(d.take(i - a)),
            forall|j: int| 0 <= j < i - a ==> is_digit(d[j]),
        decreases to - i,
    {
        let c = v[i];
        if !('0' <= c && c <= '9') {
            assert(!is_digit(d[i - a]));
            assert(digits_u64(d) is None);
            return None;
        }
        let dig = ((c as u32) - ('0' as u32)) as u64;
        let ghost t = d.take(i - a + 1);
        assert(t.drop_last() =~= d.take(i - a));
        assert(t.last() == c);
        assert(digits_value(t) == val * 10 + dig);
        match val.checked_mul(10) {
            Some(m) => match m.checked_add(dig) {
                Some(n) => {
                    val = n;
                },
                None => {
                    let r = overflow_or_invalid(v, i + 1, to, a, Ghost(d));
                    assert(digits_u64(d) is None);
                    return r;
                },
            },
            None => {
                let r = overflow_or_invalid(v, i + 1, to, a, Ghost(d));
                assert(digits_u64(d) is None);
                return r;
            },
        }
        i = i + 1;
    }
    assert(d.take(to - a) =~= d);
    Some(val)
}

/// After a digit prefix of `d` whose value already exceeds `u64::MAX`, the rest of the
/// string decides nothing: it does not parse.
fn overflow_or_invalid(v: &Vec<char>, i: usize, to: usize, a: usize, Ghost(d): Ghost<Seq<char>>) -> (r: Option<u64>)
    requires
        a < i <= to <= v.len(),
        d == v@.subrange(a as int, to as int),
        forall|j: int| 0 <= j < i - a ==> is_digit(d[j]),
        digits_value(d.take(i - a)) > u64::MAX,
    ensures
        r is None,
        !((forall|j: int| 0 <= j < d.len() ==> is_digit(d[j])) && digits_value(d) <= u64::MAX),
{
    let mut k = i;
    while k < to
        invariant
            a < i <= k <= to <= v.len(),
            d == v@.subrange(a as int, to as int),
            forall|j: int| 0 <= j < k - a ==> is_digit(d[j]),
        decreases to - k,
    {
        if !('0' <= v[k] && v[k] <= '9') {
            assert(!is_digit(d[k - a]));
            return None;
        }
        k = k + 1;
    }
    proof {
        lemma_digits_value_grows(d, i - a);
    }
    None
}

/// `s` cut at every `c`, as `str::split` does: one more piece than there are `c`s.
pub open spec fn split_on(s: Seq<char>, c: char) -> Seq<Seq<char>>
    decreases s.len(),
{
    if s.len() == 0 {
        seq![Seq::<char>::empty()]
    } else {
        let p = split_on(s.drop_last(), c);
        if s.last() == c {
            p.push(Seq::<char>::empty())
        } else {
            p.update(p.len() - 1, p.last().push(s.last()))
        }
    }
}

proof fn lemma_split_on_len(s: Seq<char>, c: char)
    ensures
        split_on(s, c).len() >= 1,
    decreases s.len(),
{
    if s.len() > 0 {
        lemma_split_on_len(s.drop_last(), c);
    }
}

/// The pieces that parse as `u64`, in order; the others are dropped.
pub open spec fn parsed_parts(ps: Seq<Seq<char>>) -> Seq<u64>
    decreases ps.len(),
{
    if ps.len() == 0 {
        Seq::<u64>::empty()
    } else {
        let r = parsed_parts(ps.drop_last());
        match parse_u64(ps.last()) {
            Some(n) => r.push(n),
            None => r,
        }
    }
}

/// The numeric components of a dotted version string; a component that is not a number
/// is left out.
pub open spec fn version_parts(s: Seq<char>) -> Seq<u64> {
    parsed_parts(split_on(s, '.'))
}

/// Component `i` of a version, `0` past its end.
pub open spec fn part_at(p: Seq<u64>, i: int) -> u64 {
    if 0 <= i < p.len() {
        p[i]
    } else {
        0
    }
}

/// `l` is newer than `c`: at the first component where they differ (a missing one counts
/// as `0`), `l` is the larger.
pub open spec fn newer_parts(l: Seq<u64>, c: Seq<u64>) -> bool {
    exists|i: int|
        0 <= i && #[trigger] part_at(l, i) > part_at(c, i) && forall|j: int|
            0 <= j < i ==> #[trigger] part_at(l, j) == part_at(c, j)
}

/// The version `latest` is newer than the version `current`.
pub open spec fn is_newer(latest: Seq<char>, current: Seq<char>) -> bool {
    newer_parts(version_parts(latest), version_parts(current))
}

/// The numeric components of a dotted version string.
pub fn parse_version(s: &str) -> (r: Vec<u64>)
    ensures
        r@ == version_parts(s@),
{
    let v = chars_of(s);
    let mut parts: Vec<u64> = Vec::new();
    let mut st: usize = 0;
    let mut i: usize = 0;
    proof {
        assert(v@.take(0) =~= Seq::<char>::empty());
    }
    while i < v.len()
        invariant
            v@ == s@,
            st <= i <= v.len(),
            split_on(v@.take(i as int), '.').len() >= 1,
            parts@ == parsed_parts(split_on(v@.take(i as int), '.').drop_last()),
            split_on(v@.take(i as int), '.').last() == v@.subrange(st as int, i as int),
        decreases v.len() - i,
    {
        let ghost pre = v@.take(i as int);
        let ghost now = v@.take(i + 1);
        assert(now.drop_last() =~= pre);
        assert(now.last() == v@[i as int]);
        if v[i] == '.' {
            let n = parse_u64_range(&v, st, i);
            let ghost p = split_on(pre, '.');
            assert(split_on(now, '.') == p.push(Seq::<char>::empty()));
            assert(split_on(now, '.').drop_last() =~= p);
            assert(p.drop_last().push(p.last()) =~= p);
            match n {
                Some(x) => {
                    parts.push(x);
                },
                None => {},
            }
            st = i + 1;
        } else {
            let ghost p = split_on(pre, '.');
            assert(split_on(now, '.').drop_last() =~= p.drop_last());
            assert(v@.subrange(st as int, i + 1) =~= v@.subrange(st as int, i as int).push(v@[i as int]));
        }
        i = i + 1;
        proof {
            lemma_split_on_len(v@.take(i as int), '.');
        }
    }
    let n = parse_u64_range(&v, st, v.len());
    let ghost p = split_on(v@, '.');
    assert(v@.take(v.len() as int) =~= v@);
    assert(p.drop_last().push(p.last()) =~= p);
    match n {
        Some(x) => {
            parts.push(x);
        },
        None => {},
    }
    parts
}

/// Whether `latest` names a newer version than `current`. Components are compared in
/// order as numbers; a missing component counts as `0`.
pub fn is_newer_version(latest: &str, current: &str) -> (b: bool)
    ensures
        b == is_newer(latest@, current@),
{
    let l = parse_version(latest);
    let c = parse_version(current);
    let n = if l.len() > c.len() { l.len() } else { c.len() };
    let mut i: usize = 0;
    while i < n
        invariant
            l@ == version_parts(latest@),
            c@ == version_parts(current@),
            n == if l.len() > c.len() { l.len() } else { c.len() },
            i <= n,
            forall|j: int| 0 <= j < i ==> #[trigger] part_at(l@, j) == part_at(c@, j),
        decreases n - i,
    {
        let x = if i < l.len() { l[i] } else { 0 };
        let y = if i < c.len() { c[i] } else { 0 };
        assert(x == part_at(l@, i as int));
        assert(y == part_at(c@, i as int));
        if x > y {
            return true;
        } else if x < y {
            proof {
                lemma_not_newer_at(l@, c@, i as int);
            }
            return false;
        }
        i = i + 1;
    }
    proof {
        assert forall|k: int| 0 <= k implies #[trigger] part_at(l@, k) == part_at(c@, k) by {
            if k >= n {
                assert(part_at(l@, k) == 0 && part_at(c@, k) == 0);
            }
        }
    }
    false
}

proof fn lemma_not_newer_at(l: Seq<u64>, c: Seq<u64>, i: int)
    requires
        0 <= i,
        part_at(l, i) < part_at(c, i),
        forall|j: int| 0 <= j < i ==> #[trigger] part_at(l, j) == part_at(c, j),
    ensures
        !newer_parts(l, c),
{
    if newer_parts(l, c) {
        let k = choose|k: int|
            0 <= k && #[trigger] part_at(l, k) > part_at(c, k) && forall|j: int|
                0 <= j < k ==> #[trigger] part_at(l, j) == part_at(c, j);
        if k < i {
            assert(part_at(l, k) == part_at(c, k));
        } else if k > i {
            assert(part_at(l, i) == part_at(c, i));
        }
    }
}

/// No version is newer than itself.
pub proof fn lemma_newer_irreflexive(v: Seq<char>)
    ensures
        !is_newer(v, v),
{
}

/// Of two versions, at most one is newer than the other.
pub proof fn lemma_newer_asymmetric(a: Seq<char>, b: Seq<char>)
    ensures
        is_newer(a, b) ==> !is_newer(b, a),
{
    let (pa, pb) = (version_parts(a), version_parts(b));
    if newer_parts(pa, pb) {
        let k = choose|k: int|
            0 <= k && #[trigger] part_at(pa, k) > part_at(pb, k) && forall|j: int|
                0 <= j < k ==> #[trigger] part_at(pa, j) == part_at(pb, j);
        lemma_not_newer_at(pb, pa, k);
    }
}

/// Newer than a version that is newer than a third is newer than the third.
pub proof fn lemma_newer_transitive(a: Seq<char>, b: Seq<char>, c: Seq<char>)
    requires
        is_newer(a, b),
        is_newer(b, c),
    ensures
        is_newer(a, c),
{
    let (pa, pb, pc) = (version_parts(a), version_parts(b), version_parts(c));
    let i = choose|k: int|
        0 <= k && #[trigger] part_at(pa, k) > part_at(pb, k) && forall|j: int|
            0 <= j < k ==> #[trigger] part_at(pa, j) == part_at(pb, j);
    let k = choose|k: int|
        0 <= k && #[trigger] part_at(pb, k) > part_at(pc, k) && forall|j: int|
            0 <= j < k ==> #[trigger] part_at(pb, j) == part_at(pc, j);
    let m = if i < k { i } else { k };
    assert(part_at(pa, m) > part_at(pc, m));
    assert forall|j: int| 0 <= j < m implies #[trigger] part_at(pa, j) == part_at(pc, j) by {
        assert(part_at(pa, j) == part_at(pb, j));
        assert(part_at(pb, j) == part_at(pc, j));
    }
}

/// Two versions of which neither is newer agree in every component, a missing one
/// counting as `0` (so `1.2` and `1.2.0` are the same version).
pub proof fn lemma_not_newer_either_way(a: Seq<char>, b: Seq<char>)
    requires
        !is_newer(a, b),
        !is_newer(b, a),
    ensures
        forall|i: int| 0 <= i ==> #[trigger] part_at(version_parts(a), i) == part_at(version_parts(b), i),
{
    let (pa, pb) = (version_parts(a), version_parts(b));
    assert forall|i: int| 0 <= i implies #[trigger] part_at(pa, i) == part_at(pb, i) by {
        lemma_agree_upto(pa, pb, i + 1);
    }
}

proof fn lemma_agree_upto(pa: Seq<u64>, pb: Seq<u64>, n: int)
    requires
        !newer_parts(pa, pb),
        !newer_parts(pb, pa),
        0 <= n,
    ensures
        forall|j: int| 0 <= j < n ==> #[trigger] part_at(pa, j) == part_at(pb, j),
    decreases n,
{
    if n > 0 {
        lemma_agree_upto(pa, pb, n - 1);
        let i = n - 1;
        if part_at(pa, i) > part_at(pb, i) {
            assert(newer_parts(pa, pb));
        } else if part_at(pa, i) < part_at(pb, i) {
            assert(forall|j: int| 0 <= j < i ==> #[trigger] part_at(pb, j) == part_at(pa, j));
            assert(newer_parts(pb, pa));
        }
    }
}

} // verus!
