use vstd::prelude::*;
use crate::hashing::{default_hash, hash_key};
use crate::i18n::hex_digit;
use crate::paths::{join, join_path};
use crate::text::{chars_of, first_index_of, find_char, is_whitespace, push_str, string_from_chars, string_from_range, trim, trim_chars};
use crate::version::{digits_value, is_digit, parse_u64, parse_u64_range};

verus! {

/// `n` in lower-case hexadecimal, without leading zeros (`{:x}`).
pub open spec fn hex_str(n: nat) -> Seq<char>
    decreases n,
{
    if n < 16 {
        seq![hex_digit(n as int)]
    } else {
        hex_str(n / 16).push(hex_digit((n % 16) as int))
    }
}

/// `n` in decimal, without leading zeros (`{}`).
pub open spec fn dec_str(n: nat) -> Seq<char>
    decreases n,
{
    if n < 10 {
        seq![(('0' as int) + n) as char]
    } else {
        dec_str(n / 10).push((('0' as int) + n % 10) as char)
    }
}

/// Writes `n` in lower-case hexadecimal.
pub fn hex_string(n: u64) -> (r: String)
    ensures
        r@ == hex_str(n as nat),
    decreases n,
{
    let d = n % 16;
    let c = if d < 10 { ((('0' as u8) + d as u8)) as char } else { ((('a' as u8) + (d as u8 - 10))) as char };
    assert(c == hex_digit(d as int));
    if n < 16 {
        let v = vec![c];
        assert(v@ =~= seq![c]);
        string_from_chars(&v)
    } else {
        let mut s = hex_string(n / 16);
        crate::text::push_char(&mut s, c);
        s
    }
}

/// Writes `n` in decimal.
pub fn dec_string(n: u64) -> (r: String)
    ensures
        r@ == dec_str(n as nat),
    decreases n,
{
    let d = n % 10;
    let c = ((('0' as u8) + d as u8)) as char;
    if n < 10 {
        let v = vec![c];
        assert(v@ =~= seq![c]);
        string_from_chars(&v)
    } else {
        let mut s = dec_string(n / 10);
        crate::text::push_char(&mut s, c);
        s
    }
}

/// The text of a cache entry: its expiry time in seconds, a line feed, and the value.
pub open spec fn entry_text(expire_at: u64, val: Seq<char>) -> Seq<char> {
    dec_str(expire_at as nat) + seq!['\n'] + val
}

/// The value that a cache entry's text gives at time `now`: the text after the first line
/// feed, where the line before it, trimmed, is a time later than `now`.
pub open spec fn read_entry(text: Seq<char>, now: u64) -> Option<Seq<char>> {
    match first_index_of(text, '\n') {
        Some(i) => match parse_u64(trim(text.take(i))) {
            Some(expire_at) => if now >= expire_at {
                None
            } else {
                Some(text.skip(i + 1))
            },
            None => None,
        },
        None => None,
    }
}

/// A key/value cache whose entries are files in one directory, each holding its expiry time.
pub struct DiskCache {
    pub cache_dir: String,
}

impl DiskCache {
    /// A cache kept in the given directory.
    pub fn new(cache_dir: String) -> (r: Self)
        ensures
            r.cache_dir@ == cache_dir@,
    {
        DiskCache { cache_dir }
    }

    /// The file that holds the entry for `key`: the key's hash in hexadecimal, with the
    /// extension `.cache`, in the cache directory.
    pub fn cache_path(&self, key: &str) -> (r: String)
        ensures
            r@ == join_path(self.cache_dir@, hex_str(default_hash(key@) as nat) + ".cache"@),
    {
        let mut name = hex_string(hash_key(key));
        push_str(&mut name, ".cache");
        join(self.cache_dir.as_str(), name.as_str())
    }
}

/// The text to store for `val`, set at time `now` to live `ttl_secs` seconds.
pub fn entry_for(val: &str, ttl_secs: u64, now: u64) -> (r: String)
    requires
        now + ttl_secs <= u64::MAX,
    ensures
        r@ == entry_text((now + ttl_secs) as u64, val@),
{
    let mut s = dec_string(now + ttl_secs);
    crate::text::push_char(&mut s, '\n');
    push_str(&mut s, val);
    s
}

/// The value that a cache entry's text gives at time `now` (seconds since the epoch): none
/// where the text has no expiry line, the line is not a time, or the time has come.
pub fn value_of_entry(text: &str, now: u64) -> (r: Option<String>)
    ensures
        match r {
            Some(v) => read_entry(text@, now) == Some(v@),
            None => read_entry(text@, now) is None,
        },
{
    let v = chars_of(text);
    let i = match find_char(&v, '\n') {
        Some(i) => i,
        None => {
            return None;
        },
    };
    let mut head: Vec<char> = Vec::new();
    for j in 0..i
        invariant
            i < v.len(),
            head@ == v@.take(j as int),
    {
        head.push(v[j]);
        assert(v@.take(j + 1) =~= v@.take(j as int).push(v@[j as int]));
    }
    let t = trim_chars(&head);
    let parsed = parse_u64_range(&t, 0, t.len());
    assert(t@.subrange(0, t@.len() as int) =~= t@);
    match parsed {
        Some(expire_at) => {
            if now >= expire_at {
                None
            } else {
                let s = string_from_range(&v, i + 1, v.len());
                assert(v@.subrange(i + 1, v@.len() as int) =~= v@.skip(i + 1));
                Some(s)
            }
        },
        None => None,
    }
}

proof fn lemma_dec_str_digits(n: nat)
    ensures
        dec_str(n).len() > 0,
        forall|i: int| 0 <= i < dec_str(n).len() ==> is_digit(#[trigger] dec_str(n)[i]),
        digits_value(dec_str(n)) == n,
    decreases n,
{
    let c = (('0' as int) + n % 10) as char;
    assert((c as u32) == 48 + n % 10);
    if n >= 10 {
        lemma_dec_str_digits(n / 10);
        let s = dec_str(n);
        assert(s.drop_last() =~= dec_str(n / 10));
        assert(s.last() == c);
        assert(((c as u32) - ('0' as u32)) as nat == n % 10);
        assert(digits_value(s) == digits_value(s.drop_last()) * 10 + ((s.last() as u32) - ('0' as u32)) as nat);
        assert(digits_value(s) == (n / 10) * 10 + n % 10);
        assert((n / 10) * 10 + n % 10 == n) by (nonlinear_arith);
    } else {
        let s = dec_str(n);
        assert(s.drop_last() =~= Seq::<char>::empty());
        assert(s.last() == c);
        assert(((c as u32) - ('0' as u32)) as nat == n % 10);
        assert(n % 10 == n);
        assert(digits_value(s.drop_last()) == 0);
        assert(digits_value(s) == n);
    }
}

/// A value stored with an expiry time reads back unchanged at every earlier time, and
/// reads back as nothing from that time on.
pub proof fn lemma_entry_round_trip(expire_at: u64, val: Seq<char>, now: u64)
    ensures
        read_entry(entry_text(expire_at, val), now) == (if now < expire_at {
            Some(val)
        } else {
            None::<Seq<char>>
        }),
{
    let d = dec_str(expire_at as nat);
    let t = entry_text(expire_at, val);
    lemma_dec_str_digits(expire_at as nat);
    assert forall|j: int| 0 <= j < d.len() implies t[j] != '\n' by {
        assert(t[j] == d[j]);
        assert(is_digit(d[j]));
    }
    assert(t[d.len() as int] == '\n');
    let k = d.len() as int;
    assert(exists|i: int| 0 <= i < t.len() && t[i] == '\n');
    let i = choose|i: int| 0 <= i < t.len() && t[i] == '\n' && forall|j: int| 0 <= j < i ==> t[j] != '\n';
    assert(0 <= k < t.len() && t[k] == '\n' && forall|j: int| 0 <= j < k ==> t[j] != '\n');
    if i < k {
    } else if i > k {
        assert(t[k] != '\n');
    }
    assert(i == k);
    assert(t.take(k) =~= d);
    assert(t.skip(k + 1) =~= val);
    assert(trim(d) == d) by {
        assert(!is_whitespace(d[0]));
        assert(crate::text::trim_start(d) == d);
        assert(!is_whitespace(d.last()));
    }
    assert(parse_u64(d) == Some(expire_at)) by {
        assert(crate::version::strip_plus(d) == d);
    }
}

proof fn lemma_hex_str_len(n: nat)
    ensures
        hex_str(n).len() >= 1,
        n >= 16 ==> hex_str(n).len() >= 2,
    decreases n,
{
    if n >= 16 {
        lemma_hex_str_len(n / 16);
    }
}

proof fn lemma_hex_digit_injective(a: int, b: int)
    requires
        0 <= a < 16,
        0 <= b < 16,
        hex_digit(a) == hex_digit(b),
    ensures
        a == b,
{
}

proof fn lemma_hex_str_injective(a: nat, b: nat)
    requires
        hex_str(a) == hex_str(b),
    ensures
        a == b,
    decreases a,
{
    lemma_hex_str_len(a);
    lemma_hex_str_len(b);
    if a < 16 && b < 16 {
        assert(hex_str(a) == seq![hex_digit(a as int)]);
        assert(hex_str(b) == seq![hex_digit(b as int)]);
        assert(hex_str(a)[0] == hex_digit(a as int));
        assert(hex_str(b)[0] == hex_digit(b as int));
        lemma_hex_digit_injective(a as int, b as int);
    } else if a >= 16 && b >= 16 {
        let ha = hex_str(a);
        let hb = hex_str(b);
        assert(ha.last() == hex_digit((a % 16) as int));
        assert(hb.last() == hex_digit((b % 16) as int));
        lemma_hex_digit_injective((a % 16) as int, (b % 16) as int);
        assert(ha.drop_last() =~= hex_str(a / 16));
        assert(hb.drop_last() =~= hex_str(b / 16));
        lemma_hex_str_injective(a / 16, b / 16);
    }
}

/// Keys whose hashes differ are kept in different files of the same cache directory, so that
/// writing or deleting one key's entry does not touch another's.
pub proof fn lemma_distinct_hashes_distinct_files(dir: Seq<char>, k1: Seq<char>, k2: Seq<char>)
    requires
        default_hash(k1) != default_hash(k2),
    ensures
        join_path(dir, hex_str(default_hash(k1) as nat) + ".cache"@) != join_path(dir, hex_str(default_hash(k2) as nat) + ".cache"@),
{
    let n1 = hex_str(default_hash(k1) as nat) + ".cache"@;
    let n2 = hex_str(default_hash(k2) as nat) + ".cache"@;
    let p1 = join_path(dir, n1);
    let p2 = join_path(dir, n2);
    if p1 == p2 {
        let pre: Seq<char> = if dir.len() == 0 {
            Seq::<char>::empty()
        } else if dir.last() == '/' {
            dir
        } else {
            dir + seq!['/']
        };
        assert(p1 =~= pre + n1);
        assert(p2 =~= pre + n2);
        assert(n1 =~= p1.skip(pre.len() as int));
        assert(n2 =~= p2.skip(pre.len() as int));
        let h1 = hex_str(default_hash(k1) as nat);
        let h2 = hex_str(default_hash(k2) as nat);
        assert(n1.len() == n2.len());
        assert(h1 =~= n1.take(h1.len() as int));
        assert(h2 =~= n2.take(h2.len() as int));
        assert(h1 == h2);
        lemma_hex_str_injective(default_hash(k1) as nat, default_hash(k2) as nat);
    }
}

} // verus!
