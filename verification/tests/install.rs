use sugg::install::{
    after_failed_attempt, download_url, plan_downloads, select_targets, should_download, sort_dedup, InstallError,
    RetryStep, ScriptEntry,
};
use sugg::ui::{byte_len, listing_line};

fn entry(name: &str, source: &str, deps: &[&str], i18n: &[(&str, &[&str])]) -> ScriptEntry {
    ScriptEntry {
        name: name.to_string(),
        description: format!("{} completions", name),
        source: source.to_string(),
        deps: deps.iter().map(|s| s.to_string()).collect(),
        i18n: i18n
            .iter()
            .map(|(ns, langs)| (ns.to_string(), langs.iter().map(|l| l.to_string()).collect()))
            .collect(),
    }
}

fn strings(v: &[&str]) -> Vec<String> {
    v.iter().map(|s| s.to_string()).collect()
}

fn registry() -> Vec<ScriptEntry> {
    vec![
        entry("git", "git/index.ts", &[], &[("git", &["en", "zh-CN"])]),
        entry("docker", "docker/index.ts", &["npm/utils.ts"], &[("docker", &["en"])]),
        entry("bun", "bun/index.ts", &["npm/utils.ts"], &[]),
    ]
}

#[test]
fn targets_are_checked_against_the_registry() {
    let reg = registry();
    match select_targets(&reg, &strings(&["git", "nonexistent"]), false) {
        Err(InstallError::NotFound(n)) => assert_eq!(n, "nonexistent"),
        _ => panic!("expected not found"),
    }
    match select_targets(&reg, &vec![], false) {
        Err(InstallError::NoScripts) => {}
        _ => panic!("expected no scripts"),
    }
    match select_targets(&reg, &vec![], true) {
        Ok(t) => assert_eq!(t, strings(&["git", "docker", "bun"])),
        _ => panic!("expected all"),
    }
    match select_targets(&reg, &strings(&["bun", "git"]), false) {
        Ok(t) => assert_eq!(t, strings(&["bun", "git"])),
        _ => panic!("expected the named scripts"),
    }
}

#[test]
fn fallback_languages_are_sorted_and_unique() {
    assert_eq!(sort_dedup(&strings(&["zh", "en", "zh-CN", "en", "zh"])), strings(&["en", "zh", "zh-CN"]));
    assert_eq!(sort_dedup(&vec![]), Vec::<String>::new());
}

#[test]
fn downloads_bring_each_shared_module_once() {
    let reg = registry();
    let fbs = strings(&["en", "zh", "zh-CN"]);
    let files = plan_downloads(&reg, &strings(&["git", "docker", "bun"]), &fbs);
    assert_eq!(
        files,
        strings(&["git/index.ts", "git/i18n/en.json", "git/i18n/zh-CN.json", "docker/index.ts", "npm/utils.ts", "docker/i18n/en.json", "bun/index.ts"])
    );
    let only_en = plan_downloads(&reg, &strings(&["git"]), &strings(&["en"]));
    assert_eq!(only_en, strings(&["git/index.ts", "git/i18n/en.json"]));
}

#[test]
fn failed_downloads_back_off_then_give_up() {
    assert_eq!(after_failed_attempt(0), RetryStep::RetryAfter(500));
    assert_eq!(after_failed_attempt(1), RetryStep::RetryAfter(1000));
    assert_eq!(after_failed_attempt(2), RetryStep::RetryAfter(2000));
    assert_eq!(after_failed_attempt(3), RetryStep::GiveUp);
    assert_eq!(after_failed_attempt(7), RetryStep::GiveUp);
}

#[test]
fn download_urls_and_skips() {
    assert_eq!(download_url("http://h/completions", "git/index.ts"), "http://h/completions/git/index.ts");
    assert!(should_download(false, false));
    assert!(!should_download(true, false));
    assert!(should_download(true, true));
}

#[test]
fn registry_listing_aligns_names() {
    let e = entry("git", "git/index.ts", &[], &[("git", &["en", "zh-CN"])]);
    assert_eq!(listing_line(&e, 6), "  git     git completions [en, zh-CN]");
    let e2 = entry("docker", "d", &[], &[]);
    assert_eq!(listing_line(&e2, 6), "  docker  docker completions");
    assert_eq!(byte_len("héllo"), 6);
}

#[test]
fn translations_are_fetched_per_namespace() {
    let reg = vec![entry("npm", "npm/index.ts", &[], &[("npm", &["en", "fr"]), ("pnpm", &["en", "zh"])])];
    let files = plan_downloads(&reg, &strings(&["npm"]), &strings(&["en", "zh"]));
    assert_eq!(files, strings(&["npm/index.ts", "npm/i18n/en.json", "pnpm/i18n/en.json", "pnpm/i18n/zh.json"]));
    // The listing names each language once, in the order the namespaces give them.
    assert_eq!(listing_line(&reg[0], 3), "  npm  npm completions [en, fr, zh]");
}
