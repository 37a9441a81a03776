use sugg::icu_utils::{fallback_chain_from, get_fallback_chain};

fn edge_cases() {
    assert_eq!(get_fallback_chain("en"), vec!["en"]);
    assert_eq!(get_fallback_chain(""), vec!["en"]);
    let chain = get_fallback_chain("???");
    assert!(chain.contains(&"en".to_string()));
    assert!(chain.contains(&"???".to_string()));
    let en_prefix: Vec<_> = chain.iter().filter(|s| s.starts_with("en")).collect();
    assert_eq!(en_prefix, vec![&"en"], "不应生成 en-* 衍生项");
}

#[test]
fn icu_utils_test_fallback_chain_edge_cases() {
    edge_cases();
}

#[test]
fn lib_test_fallback_chain_edge_cases() {
    edge_cases();
}

#[test]
fn test_fallback_chain_zh() {
    let chain = get_fallback_chain("zh-Hans-CN");
    assert!(chain.contains(&"en".to_string()));
    assert!(chain.contains(&"zh".to_string()));
    assert!(chain.contains(&"zh-CN".to_string()));
}

#[test]
fn test_fallback_chain_fr() {
    let chain = get_fallback_chain("fr-FR");
    assert!(chain.contains(&"en".to_string()));
    assert!(chain.contains(&"fr".to_string()));
    assert!(chain.contains(&"fr-FR".to_string()));
}

#[test]
fn fallback_chain_en_us_puts_en_first() {
    assert_eq!(get_fallback_chain("en-US"), vec!["en", "en-US"]);
}

#[test]
fn fallback_chain_ignores_case_of_en() {
    assert_eq!(get_fallback_chain("EN"), vec!["en"]);
    assert_eq!(fallback_chain_from("eN", Some(vec!["x".to_string()])), vec!["en"]);
}

#[test]
fn fallback_chain_from_reverses_and_dedups_steps() {
    let steps = vec!["zh-CN".to_string(), "zh".to_string(), "en".to_string(), "zh".to_string()];
    assert_eq!(fallback_chain_from("zh-Hans-CN", Some(steps)), vec!["en", "zh", "zh-CN"]);
}

#[test]
fn fallback_chain_from_unparsed_keeps_the_input() {
    assert_eq!(fallback_chain_from("???", None), vec!["en", "???"]);
}

#[test]
fn fallback_chain_always_starts_with_en_without_repeats() {
    for lang in ["de-AT", "pt-BR", "ja", "und", "sr-Latn-RS", "x"] {
        let chain = get_fallback_chain(lang);
        assert_eq!(chain[0], "en");
        for i in 0..chain.len() {
            for j in (i + 1)..chain.len() {
                assert_ne!(chain[i], chain[j]);
            }
        }
    }
}
