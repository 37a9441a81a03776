use vstd::prelude::*;
use icu::locale::fallback::{LocaleFallbackIterator, LocaleFallbacker};
use crate::seqs::no_repeats;
use crate::text::{strings_view, str_eq, str_eq_ignore_ascii_case, eq_ignore_ascii_case};

verus! {

/// The locales, as BCP 47 strings, that ICU4X's compiled-data `LocaleFallbacker` visits
/// for `lang` with the default configuration, in order, before it reaches the root `und`;
/// `None` where `lang` does not parse as a `Locale`.
pub uninterp spec fn icu_fallback_sequence(lang: Seq<char>) -> Option<Seq<Seq<char>>>;

/// An optional list of strings, by its views.
pub open spec fn opt_strings_view(v: Option<Vec<String>>) -> Option<Seq<Seq<char>>> {
    match v {
        Some(v) => Some(strings_view(v@)),
        None => None,
    }
}

/// A walk along a locale fallback chain, from `icu`.
#[verifier::external_type_specification]
#[verifier::external_body]
pub struct ExLocaleFallbackIterator<'a>(LocaleFallbackIterator<'a>);

/// The locales, as BCP 47 strings, that a fallback walk has still to visit before it reaches
/// the root `und`, starting with the one it stands on.
pub uninterp spec fn fallback_remaining(it: LocaleFallbackIterator<'static>) -> Seq<Seq<char>>;

/// Parses `lang` with `Locale::from_str` and starts a walk with `LocaleFallbacker::new()`
/// (compiled data) in the default configuration (`for_config`, `fallback_for`). Claimed: the
/// walk visits `icu_fallback_sequence(lang@)`; none exactly where `lang` does not parse.
#[verifier::external_body]
fn fallback_walk(lang: &str) -> (r: Option<LocaleFallbackIterator<'static>>)
    ensures
        match r {
            Some(it) => icu_fallback_sequence(lang@) == Some(fallback_remaining(it)),
            None => icu_fallback_sequence(lang@) is None,
        },
{
    let locale = match lang.parse::<icu::locale::Locale>() {
        Ok(l) => l,
        Err(_) => return None,
    };
    Some(LocaleFallbacker::new().for_config(Default::default()).fallback_for(locale.into()))
}

/// Calls `get().is_unknown()`: whether the walk has reached the root `und`, which ICU's
/// documentation gives as the end of the fallback.
#[verifier::external_body]
fn walk_done(it: &LocaleFallbackIterator<'static>) -> (r: bool)
    ensures
        r == (fallback_remaining(*it).len() == 0),
{
    it.get().is_unknown()
}

/// Calls `get().to_string()`: the locale the walk stands on, as a BCP 47 string.
#[verifier::external_body]
fn walk_current(it: &LocaleFallbackIterator<'static>) -> (r: String)
    requires
        fallback_remaining(*it).len() > 0,
    ensures
        r@ == fallback_remaining(*it)[0],
{
    it.get().to_string()
}

/// Calls `step()`: the walk moves on to the next locale of the chain.
#[verifier::external_body]
fn walk_step(it: &mut LocaleFallbackIterator<'static>)
    requires
        fallback_remaining(*old(it)).len() > 0,
    ensures
        fallback_remaining(*final(it)) == fallback_remaining(*old(it)).drop_first(),
{
    it.step();
}

/// The locales that the fallback visits for `lang` before the root, in order; none where
/// `lang` does not parse as a locale.
fn locale_fallback_steps(lang: &str) -> (r: Option<Vec<String>>)
    ensures
        opt_strings_view(r) == icu_fallback_sequence(lang@),
{
    let mut it = match fallback_walk(lang) {
        Some(it) => it,
        None => {
            return None;
        },
    };
    let ghost all = fallback_remaining(it);
    let mut out: Vec<String> = Vec::new();
    while !walk_done(&it)
        invariant
            all == strings_view(out@) + fallback_remaining(it),
        decreases fallback_remaining(it).len(),
    {
        let c = walk_current(&it);
        let ghost before = strings_view(out@);
        let ghost rest = fallback_remaining(it);
        out.push(c);
        walk_step(&mut it);
        assert(strings_view(out@) =~= before.push(rest[0]));
        assert(all =~= strings_view(out@) + fallback_remaining(it));
    }
    assert(all =~= strings_view(out@));
    Some(out)
}

/// The language that every chain starts with.
pub open spec fn base_lang() -> Seq<char> {
    seq!['e', 'n']
}

/// `chain` extended by the items of `xs` taken from the last to the first, each one only
/// where the chain does not hold it yet.
pub open spec fn absorb_reversed(chain: Seq<Seq<char>>, xs: Seq<Seq<char>>) -> Seq<Seq<char>>
    decreases xs.len(),
{
    if xs.len() == 0 {
        chain
    } else {
        let x = xs.last();
        let c = if chain.contains(x) {
            chain
        } else {
            chain.push(x)
        };
        absorb_reversed(c, xs.drop_last())
    }
}

/// The fallback chain for `lang`, given what the locale fallbacker produced for it:
/// `en` first; then, for a parsed locale, its fallback steps from the most general to the
/// most specific without repeats; for an unparsable one, `lang` itself.
pub open spec fn fallback_chain(lang: Seq<char>, steps: Option<Seq<Seq<char>>>) -> Seq<Seq<char>> {
    if lang.len() == 0 || eq_ignore_ascii_case(lang, base_lang()) {
        seq![base_lang()]
    } else {
        match steps {
            Some(s) => absorb_reversed(seq![base_lang()], s),
            None => seq![base_lang(), lang],
        }
    }
}

proof fn lemma_absorb_keeps(chain: Seq<Seq<char>>, xs: Seq<Seq<char>>)
    requires
        chain.len() >= 1,
        no_repeats(chain),
    ensures
        absorb_reversed(chain, xs).len() >= 1,
        absorb_reversed(chain, xs)[0] == chain[0],
        no_repeats(absorb_reversed(chain, xs)),
        forall|k: int| 0 <= k < chain.len() ==> #[trigger] absorb_reversed(chain, xs)[k] == chain[k],
        chain.len() <= absorb_reversed(chain, xs).len(),
    decreases xs.len(),
{
    if xs.len() > 0 {
        let x = xs.last();
        let c = if chain.contains(x) {
            chain
        } else {
            chain.push(x)
        };
        if !chain.contains(x) {
            assert forall|i: int, j: int| 0 <= i < j < c.len() implies c[i] != c[j] by {
                if j == chain.len() {
                    assert(chain[i] == c[i]);
                }
            }
        }
        lemma_absorb_keeps(c, xs.drop_last());
    }
}

fn contains_string(v: &Vec<String>, s: &str) -> (b: bool)
    ensures
        b == strings_view(v@).contains(s@),
{
    let mut i: usize = 0;
    while i < v.len()
        invariant
            0 <= i <= v.len(),
            forall|j: int| 0 <= j < i ==> v@[j]@ != s@,
        decreases v.len() - i,
    {
        if str_eq(v[i].as_str(), s) {
            assert(strings_view(v@)[i as int] == s@);
            return true;
        }
        i = i + 1;
    }
    assert forall|j: int| 0 <= j < strings_view(v@).len() implies strings_view(v@)[j] != s@ by {
        assert(v@[j]@ != s@);
    }
    false
}

/// The fallback chain for `lang`, given what the locale fallbacker produced for it
/// (`None` where `lang` did not parse).
pub fn fallback_chain_from(lang: &str, steps: Option<Vec<String>>) -> (r: Vec<String>)
    ensures
        strings_view(r@) == fallback_chain(lang@, opt_strings_view(steps)),
        r@.len() >= 1,
        r@[0]@ == base_lang(),
        no_repeats(strings_view(r@)),
{
    let en = String::from_str("en");
    proof {
        reveal_strlit("en");
    }
    assert(en@ == base_lang());
    let mut chain: Vec<String> = Vec::new();
    chain.push(en);
    assert(strings_view(chain@) == seq![base_lang()]);
    if lang.unicode_len() == 0 || str_eq_ignore_ascii_case(lang, "en") {
        return chain;
    }
    match steps {
        Some(s) => {
            let ghost xs = strings_view(s@);
            let mut i = s.len();
            assert(xs.take(i as int) =~= xs);
            while i > 0
                invariant
                    i <= s.len(),
                    xs == strings_view(s@),
                    chain@.len() >= 1,
                    no_repeats(strings_view(chain@)),
                    absorb_reversed(strings_view(chain@), xs.take(i as int)) == absorb_reversed(
                        seq![base_lang()],
                        xs,
                    ),
                decreases i,
            {
                let ghost before = strings_view(chain@);
                let ghost t = xs.take(i as int);
                assert(t.last() == s@[i - 1]@);
                assert(t.drop_last() =~= xs.take(i - 1));
                if !contains_string(&chain, s[i - 1].as_str()) {
                    let item = s[i - 1].clone();
                    chain.push(item);
                    assert(strings_view(chain@) =~= before.push(t.last()));
                    assert forall|a: int, b: int|
                        0 <= a < b < strings_view(chain@).len() implies strings_view(chain@)[a]
                        != strings_view(chain@)[b] by {
                        if b == before.len() {
                            assert(before[a] == strings_view(chain@)[a]);
                        }
                    }
                }
                i = i - 1;
            }
            assert(xs.take(0) =~= Seq::<Seq<char>>::empty());
            proof {
                lemma_absorb_keeps(seq![base_lang()], xs);
            }
            chain
        },
        None => {
            let item = String::from_str(lang);
            chain.push(item);
            assert(strings_view(chain@) =~= seq![base_lang(), lang@]);
            proof {
                reveal_strlit("en");
            }
            assert(lang@ != base_lang());
            chain
        },
    }
}

/// The fallback chain of BCP 47 locales for `lang`: `en` first, then the fallbacks that ICU
/// computes for it from the most general to the most specific, without repeats; `lang` itself
/// where it does not parse as a locale.
pub fn get_fallback_chain(lang: &str) -> (r: Vec<String>)
    ensures
        strings_view(r@) == fallback_chain(lang@, icu_fallback_sequence(lang@)),
        r@.len() >= 1,
        r@[0]@ == base_lang(),
        no_repeats(strings_view(r@)),
{
    proof {
        reveal_strlit("en");
    }
    if lang.unicode_len() == 0 || str_eq_ignore_ascii_case(lang, "en") {
        return fallback_chain_from(lang, None);
    }
    let steps = locale_fallback_steps(lang);
    fallback_chain_from(lang, steps)
}

} // verus!
