use vstd::prelude::*;
use std::collections::hash_map::DefaultHasher;
use std::hash::{Hash, Hasher};
use vstd::std_specs::hash::DefaultHasherAdditionalSpecFns;
use crate::text::strings_view;

verus! {

/// The writes that `Hash for str` makes to a hasher for `s` (its bytes, then a separating
/// `0xff`, as the `Hash` documentation describes for `str`), each write the bytes it passes.
pub uninterp spec fn str_hash_writes(s: Seq<char>) -> Seq<Seq<u8>>;

/// The writes that `Hash for u64` makes to a hasher for `n`.
pub uninterp spec fn u64_hash_writes(n: u64) -> Seq<Seq<u8>>;

/// Calls `<str as Hash>::hash(s, h)`: the hasher has then also received the writes that
/// `Hash for str` makes for `s`, which depend on `s` alone.
#[verifier::external_body]
fn hash_str_into(h: &mut DefaultHasher, s: &str)
    ensures
        final(h)@ == old(h)@ + str_hash_writes(s@),
{
    s.hash(h);
}

/// Calls `<u64 as Hash>::hash(&n, h)`: the hasher has then also received the writes that
/// `Hash for u64` makes for `n`, which depend on `n` alone.
#[verifier::external_body]
fn hash_u64_into(h: &mut DefaultHasher, n: u64)
    ensures
        final(h)@ == old(h)@ + u64_hash_writes(n),
{
    n.hash(h);
}

/// The writes for some strings, in order.
pub open spec fn strings_writes(s: Seq<Seq<char>>) -> Seq<Seq<u8>>
    decreases s.len(),
{
    if s.len() == 0 {
        Seq::<Seq<u8>>::empty()
    } else {
        strings_writes(s.drop_last()) + str_hash_writes(s.last())
    }
}

/// The hash that a new `DefaultHasher` gives a string key.
pub open spec fn default_hash(key: Seq<char>) -> u64 {
    DefaultHasher::spec_finish(str_hash_writes(key))
}

/// The hash that a new `DefaultHasher` gives some strings, fed in order.
pub open spec fn strings_hash(s: Seq<Seq<char>>) -> u64 {
    DefaultHasher::spec_finish(strings_writes(s))
}

/// The hash that a new `DefaultHasher` gives a string followed by a number.
pub open spec fn source_hash(source: Seq<char>, salt: u64) -> u64 {
    DefaultHasher::spec_finish(str_hash_writes(source) + u64_hash_writes(salt))
}

/// The hash of a string key.
pub(crate) fn hash_key(key: &str) -> (r: u64)
    ensures
        r == default_hash(key@),
{
    let mut h = DefaultHasher::new();
    hash_str_into(&mut h, key);
    assert(h@ =~= str_hash_writes(key@));
    h.finish()
}

/// The hash of some strings, fed in order.
pub(crate) fn hash_strings(v: &Vec<String>) -> (r: u64)
    ensures
        r == strings_hash(strings_view(v@)),
{
    let ghost sv = strings_view(v@);
    let mut h = DefaultHasher::new();
    for i in 0..v.len()
        invariant
            sv == strings_view(v@),
            h@ == strings_writes(sv.take(i as int)),
    {
        hash_str_into(&mut h, v[i].as_str());
        assert(sv.take(i + 1).drop_last() =~= sv.take(i as int));
    }
    assert(sv.take(v.len() as int) =~= sv);
    h.finish()
}

/// The hash of a string followed by a number.
pub(crate) fn hash_source(source: &str, salt: u64) -> (r: u64)
    ensures
        r == source_hash(source@, salt),
{
    let mut h = DefaultHasher::new();
    hash_str_into(&mut h, source);
    hash_u64_into(&mut h, salt);
    assert(h@ =~= str_hash_writes(source@) + u64_hash_writes(salt));
    h.finish()
}

} // verus!
