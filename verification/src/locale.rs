use vstd::prelude::*;

verus! {

/// The system's preferred locale as a BCP 47 tag, as `sys_locale::get_locale` reads it from
/// the platform (the environment's `LANG`/`LC_ALL` on Unix). Nothing is stated of the result:
/// it depends on the machine and its environment, and may be absent.
#[verifier::external_body]
fn system_locale() -> (r: Option<String>) {
    sys_locale::get_locale()
}

/// The locale to work with, given what the system reports: the reported tag where it is
/// non-empty, else `en`, so that a fallback chain always has a start.
pub open spec fn locale_or_en(found: Option<Seq<char>>) -> Seq<char> {
    match found {
        Some(s) => if s.len() > 0 {
            s
        } else {
            "en"@
        },
        None => "en"@,
    }
}

/// The locale to work with, given what the system reports.
pub fn choose_locale(found: Option<String>) -> (r: String)
    ensures
        r@ == locale_or_en(match found {
            Some(s) => Some(s@),
            None => None::<Seq<char>>,
        }),
{
    proof {
        reveal_strlit("en");
    }
    match found {
        Some(s) => if s.unicode_len() > 0 {
            s
        } else {
            String::from_str("en")
        },
        None => String::from_str("en"),
    }
}

/// The system's most preferred locale (`en-US`, `zh-CN`, ...), or `en` where none can be
/// read. Whatever the system reports, the result is never empty.
pub fn detect_locale() -> (r: String)
    ensures
        r@.len() > 0,
{
    let found = system_locale();
    let r = choose_locale(found);
    proof {
        reveal_strlit("en");
    }
    r
}

} // verus!
