use vstd::prelude::*;
use crate::text::{chars_of, strings_view};

verus! {

/// `a` sorts before `b` as `String`s do: lexicographically by character (UTF-8 byte order
/// and code-point order agree), a proper prefix first.
pub open spec fn seq_lt(a: Seq<char>, b: Seq<char>) -> bool
    decreases a.len(),
{
    if a.len() == 0 {
        b.len() > 0
    } else if b.len() == 0 {
        false
    } else if a[0] != b[0] {
        a[0] < b[0]
    } else {
        seq_lt(a.drop_first(), b.drop_first())
    }
}

/// No string sorts before itself.
pub proof fn lemma_lt_irreflexive(a: Seq<char>)
    ensures
        !seq_lt(a, a),
    decreases a.len(),
{
    if a.len() > 0 {
        lemma_lt_irreflexive(a.drop_first());
    }
}

/// The order is transitive.
pub proof fn lemma_lt_transitive(a: Seq<char>, b: Seq<char>, c: Seq<char>)
    requires
        seq_lt(a, b),
        seq_lt(b, c),
    ensures
        seq_lt(a, c),
    decreases a.len(),
{
    if a.len() > 0 && b.len() > 0 && c.len() > 0 && a[0] == b[0] && b[0] == c[0] {
        lemma_lt_transitive(a.drop_first(), b.drop_first(), c.drop_first());
    }
}

/// Of two different strings, one sorts before the other.
pub proof fn lemma_lt_total(a: Seq<char>, b: Seq<char>)
    ensures
        a != b ==> seq_lt(a, b) || seq_lt(b, a),
    decreases a.len(),
{
    if a.len() > 0 && b.len() > 0 && a[0] == b[0] {
        lemma_lt_total(a.drop_first(), b.drop_first());
        if a.drop_first() == b.drop_first() {
            assert(a =~= seq![a[0]] + a.drop_first());
            assert(b =~= seq![b[0]] + b.drop_first());
        }
    } else if a.len() == 0 && b.len() == 0 {
        assert(a =~= b);
    }
}

/// At most one of two strings sorts before the other.
pub proof fn lemma_lt_asymmetric(a: Seq<char>, b: Seq<char>)
    ensures
        seq_lt(a, b) ==> !seq_lt(b, a),
{
    if seq_lt(a, b) && seq_lt(b, a) {
        lemma_lt_transitive(a, b, a);
        lemma_lt_irreflexive(a);
    }
}

/// Whether `a` sorts before `b`.
pub fn str_lt(a: &str, b: &str) -> (r: bool)
    ensures
        r == seq_lt(a@, b@),
{
    let av = chars_of(a);
    let bv = chars_of(b);
    let mut i: usize = 0;
    assert(a@.skip(0) =~= a@ && b@.skip(0) =~= b@);
    while i < av.len() && i < bv.len()
        invariant
            av@ == a@,
            bv@ == b@,
            i <= av.len(),
            i <= bv.len(),
            forall|j: int| 0 <= j < i ==> av@[j] == bv@[j],
            seq_lt(a@, b@) == seq_lt(a@.skip(i as int), b@.skip(i as int)),
        decreases av.len() - i,
    {
        let x = av[i];
        let y = bv[i];
        let ghost (sa, sb) = (a@.skip(i as int), b@.skip(i as int));
        assert(sa[0] == x && sb[0] == y);
        if x != y {
            return x < y;
        }
        assert(sa.drop_first() =~= a@.skip(i + 1));
        assert(sb.drop_first() =~= b@.skip(i + 1));
        i = i + 1;
    }
    i < bv.len()
}

/// Index `x` comes before index `y` when the keys are sorted stably: a smaller key first,
/// and of equal keys the earlier one.
pub open spec fn key_before(keys: Seq<Seq<char>>, x: int, y: int) -> bool {
    seq_lt(keys[x], keys[y]) || (keys[x] == keys[y] && x < y)
}

/// `x` occurs in `r`.
pub open spec fn lists(r: Seq<int>, x: int) -> bool {
    exists|k: int| 0 <= k < r.len() && r[k] == x
}

/// `r` lists each of `0..n` exactly once.
pub open spec fn is_perm(r: Seq<int>, n: int) -> bool {
    &&& r.len() == n
    &&& forall|k: int| 0 <= k < n ==> 0 <= #[trigger] r[k] < n
    &&& forall|a: int, b: int| 0 <= a < b < n ==> r[a] != r[b]
    &&& forall|x: int| 0 <= x < n ==> #[trigger] lists(r, x)
}

/// `r` is the order in which a stable sort by `keys` lists the indices.
pub open spec fn is_sort_order(keys: Seq<Seq<char>>, r: Seq<int>) -> bool {
    &&& is_perm(r, keys.len() as int)
    &&& forall|a: int, b: int| 0 <= a < b < r.len() ==> key_before(keys, #[trigger] r[a], #[trigger] r[b])
}

/// The order in which a stable sort by `keys` lists the indices.
pub open spec fn sort_order(keys: Seq<Seq<char>>) -> Seq<int> {
    choose|r: Seq<int>| is_sort_order(keys, r)
}

/// The items of `s` in the order `r`.
pub open spec fn permute<T>(s: Seq<T>, r: Seq<int>) -> Seq<T> {
    Seq::new(r.len(), |k: int| s[r[k]])
}

proof fn lemma_before_asymmetric(keys: Seq<Seq<char>>, x: int, y: int)
    ensures
        key_before(keys, x, y) ==> !key_before(keys, y, x),
{
    lemma_lt_asymmetric(keys[x], keys[y]);
    lemma_lt_irreflexive(keys[x]);
}

proof fn lemma_before_transitive(keys: Seq<Seq<char>>, x: int, y: int, z: int)
    requires
        key_before(keys, x, y),
        key_before(keys, y, z),
    ensures
        key_before(keys, x, z),
{
    if seq_lt(keys[x], keys[y]) && seq_lt(keys[y], keys[z]) {
        lemma_lt_transitive(keys[x], keys[y], keys[z]);
    }
}

/// A stable sort order is unique.
pub proof fn lemma_sort_order_unique(keys: Seq<Seq<char>>, r1: Seq<int>, r2: Seq<int>)
    requires
        is_sort_order(keys, r1),
        is_sort_order(keys, r2),
    ensures
        r1 == r2,
{
    let n = keys.len() as int;
    if r1 != r2 {
        assert(!(r1 =~= r2));
        let k = choose|k: int| 0 <= k < n && r1[k] != r2[k];
        lemma_first_difference(r1, r2, k);
        let d = choose|d: int| 0 <= d < n && r1[d] != r2[d] && forall|j: int| 0 <= j < d ==> r1[j] == r2[j];
        let x1 = r1[d];
        let x2 = r2[d];
        assert(lists(r2, x1));
        assert(lists(r1, x2));
        let m2 = choose|m: int| 0 <= m < n && r2[m] == x1;
        let m1 = choose|m: int| 0 <= m < n && r1[m] == x2;
        if m2 < d {
            assert(r1[m2] == r2[m2]);
            assert(r1[m2] != r1[d]);
        }
        if m1 < d {
            assert(r2[m1] == r1[m1]);
            assert(r2[m1] != r2[d]);
        }
        assert(key_before(keys, x2, x1)) by {
            assert(r2[d] == x2 && r2[m2] == x1);
        }
        assert(key_before(keys, x1, x2)) by {
            assert(r1[d] == x1 && r1[m1] == x2);
        }
        lemma_before_asymmetric(keys, x1, x2);
    }
}

proof fn lemma_first_difference(r1: Seq<int>, r2: Seq<int>, k: int)
    requires
        0 <= k < r1.len(),
        r1.len() == r2.len(),
        r1[k] != r2[k],
    ensures
        exists|d: int| 0 <= d < r1.len() && r1[d] != r2[d] && forall|j: int| 0 <= j < d ==> r1[j] == r2[j],
    decreases k,
{
    if exists|j: int| 0 <= j < k && r1[j] != r2[j] {
        let j = choose|j: int| 0 <= j < k && r1[j] != r2[j];
        lemma_first_difference(r1, r2, j);
    } else {
        assert(0 <= k < r1.len() && r1[k] != r2[k] && forall|j: int| 0 <= j < k ==> r1[j] == r2[j]);
    }
}

/// Indices as mathematical integers.
pub open spec fn idx_view(v: Seq<usize>) -> Seq<int> {
    v.map_values(|x: usize| x as int)
}

/// The indices of `keys` in the order a stable sort by key puts them.
pub fn sorted_order(keys: &Vec<String>) -> (r: Vec<usize>)
    ensures
        is_sort_order(strings_view(keys@), idx_view(r@)),
        idx_view(r@) == sort_order(strings_view(keys@)),
{
    let ghost ks = strings_view(keys@);
    let mut r: Vec<usize> = Vec::new();
    let mut i: usize = 0;
    while i < keys.len()
        invariant
            ks == strings_view(keys@),
            i <= keys.len(),
            r@.len() == i,
            forall|k: int| 0 <= k < i ==> #[trigger] r@[k] < i,
            forall|a: int, b: int| 0 <= a < b < i ==> r@[a] != r@[b],
            forall|x: int| 0 <= x < i ==> #[trigger] lists(idx_view(r@), x),
            forall|a: int, b: int| 0 <= a < b < i ==> key_before(ks, #[trigger] r@[a] as int, #[trigger] r@[b] as int),
        decreases keys.len() - i,
    {
        let mut j: usize = 0;
        while j < r.len() && !str_lt(keys[i].as_str(), keys[r[j]].as_str())
            invariant
                ks == strings_view(keys@),
                i < keys.len(),
                r@.len() == i,
                j <= i,
                forall|k: int| 0 <= k < i ==> #[trigger] r@[k] < i,
                forall|k: int| 0 <= k < j ==> !seq_lt(ks[i as int], ks[#[trigger] r@[k] as int]),
            decreases i - j,
        {
            j = j + 1;
        }
        let ghost old_r = r@;
        proof {
            assert forall|k: int| 0 <= k < j implies key_before(ks, #[trigger] old_r[k] as int, i as int) by {
                lemma_lt_total(ks[i as int], ks[old_r[k] as int]);
            }
            if j < i {
                assert(seq_lt(ks[i as int], ks[old_r[j as int] as int]));
                assert forall|k: int| j <= k < i implies key_before(ks, i as int, #[trigger] old_r[k] as int) by {
                    if k > j {
                        assert(key_before(ks, old_r[j as int] as int, old_r[k] as int));
                        lemma_before_transitive(ks, i as int, old_r[j as int] as int, old_r[k] as int);
                    }
                }
            }
        }
        r.insert(j, i);
        assert(r@ =~= old_r.insert(j as int, i));
        proof {
            assert forall|x: int| 0 <= x < i + 1 implies #[trigger] lists(idx_view(r@), x) by {
                if x == i {
                    assert(idx_view(r@)[j as int] == x);
                } else {
                    assert(lists(idx_view(old_r), x));
                    let k = choose|k: int| 0 <= k < i && idx_view(old_r)[k] == x;
                    if k < j {
                        assert(idx_view(r@)[k] == x);
                    } else {
                        assert(idx_view(r@)[k + 1] == x);
                    }
                }
            }
            assert forall|a: int, b: int| 0 <= a < b < i + 1 implies key_before(ks, #[trigger] r@[a] as int, #[trigger] r@[b] as int) by {
                if a < j && b < j {
                } else if a < j && b == j {
                } else if a < j && b > j {
                    assert(r@[b] == old_r[b - 1]);
                } else if a == j {
                    assert(r@[b] == old_r[b - 1]);
                } else {
                    assert(r@[a] == old_r[a - 1]);
                    assert(r@[b] == old_r[b - 1]);
                }
            }
        }
        i = i + 1;
    }
    proof {
        let iv = idx_view(r@);
        assert forall|a: int, b: int| 0 <= a < b < iv.len() implies key_before(ks, #[trigger] iv[a], #[trigger] iv[b]) by {
            assert(iv[a] == r@[a] as int && iv[b] == r@[b] as int);
        }
        assert forall|k: int| 0 <= k < iv.len() implies 0 <= #[trigger] iv[k] < iv.len() by {
            assert(iv[k] == r@[k] as int);
        }
        assert forall|a: int, b: int| 0 <= a < b < iv.len() implies iv[a] != iv[b] by {
            assert(iv[a] == r@[a] as int && iv[b] == r@[b] as int);
        }
        assert(is_sort_order(ks, iv));
        lemma_sort_order_unique(ks, iv, sort_order(ks));
    }
    r
}

/// Every list of keys has a stable sort order.
pub proof fn lemma_sort_order_exists(keys: Seq<Seq<char>>)
    ensures
        is_sort_order(keys, sort_order(keys)),
{
    let r = sort_order_witness(keys, keys.len() as int);
    assert(is_sort_order(keys, r));
}

proof fn sort_order_witness(keys: Seq<Seq<char>>, i: int) -> (r: Seq<int>)
    requires
        0 <= i <= keys.len(),
    ensures
        r.len() == i,
        forall|k: int| 0 <= k < i ==> 0 <= #[trigger] r[k] < i,
        forall|a: int, b: int| 0 <= a < b < i ==> r[a] != r[b],
        forall|x: int| 0 <= x < i ==> #[trigger] lists(r, x),
        forall|a: int, b: int| 0 <= a < b < i ==> key_before(keys, #[trigger] r[a], #[trigger] r[b]),
    decreases i,
{
    if i == 0 {
        Seq::<int>::empty()
    } else {
        let old_r = sort_order_witness(keys, i - 1);
        let n = i - 1;
        let j = insert_position(keys, old_r, n, 0);
        assert forall|k: int| 0 <= k < j implies key_before(keys, #[trigger] old_r[k], n) by {
            lemma_lt_total(keys[n], keys[old_r[k]]);
        }
        if j < n {
            assert forall|k: int| j <= k < n implies key_before(keys, n, #[trigger] old_r[k]) by {
                if k > j {
                    assert(key_before(keys, old_r[j], old_r[k]));
                    lemma_before_transitive(keys, n, old_r[j], old_r[k]);
                }
            }
        }
        let r = old_r.insert(j, n);
        assert forall|x: int| 0 <= x < i implies #[trigger] lists(r, x) by {
            if x == n {
                assert(r[j] == x);
            } else {
                assert(lists(old_r, x));
                let k = choose|k: int| 0 <= k < n && old_r[k] == x;
                if k < j {
                    assert(r[k] == x);
                } else {
                    assert(r[k + 1] == x);
                }
            }
        }
        assert forall|a: int, b: int| 0 <= a < b < i implies key_before(keys, #[trigger] r[a], #[trigger] r[b]) by {
            if a < j && b < j {
            } else if a < j && b == j {
            } else if a < j && b > j {
                assert(r[b] == old_r[b - 1]);
            } else if a == j {
                assert(r[b] == old_r[b - 1]);
            } else {
                assert(r[a] == old_r[a - 1]);
                assert(r[b] == old_r[b - 1]);
            }
        }
        r
    }
}

proof fn insert_position(keys: Seq<Seq<char>>, r: Seq<int>, n: int, j: int) -> (p: int)
    requires
        0 <= j <= r.len(),
        0 <= n < keys.len(),
        forall|k: int| 0 <= k < j ==> !seq_lt(keys[n], keys[#[trigger] r[k]]),
    ensures
        j <= p <= r.len(),
        forall|k: int| 0 <= k < p ==> !seq_lt(keys[n], keys[#[trigger] r[k]]),
        p < r.len() ==> seq_lt(keys[n], keys[r[p]]),
    decreases r.len() - j,
{
    if j == r.len() || seq_lt(keys[n], keys[r[j]]) {
        j
    } else {
        insert_position(keys, r, n, j + 1)
    }
}

} // verus!
