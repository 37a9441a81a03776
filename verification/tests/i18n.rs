use sugg::i18n::{
    build_i18n_tree, doc_text_exec, generate_i18n_modules, get_matching_i18n_files, merge_translations,
    run_i18n_gen, scan_i18n_dirs, I18nDir, I18nValue, LangFile, Namespace, SubDir,
};

fn ns(name: &str, entries: &[(&str, &str)]) -> Namespace {
    Namespace {
        name: name.to_string(),
        entries: entries.iter().map(|(k, v)| (k.to_string(), v.to_string())).collect(),
    }
}

fn module<'a>(modules: &'a [(String, String)], id: &str) -> Option<&'a String> {
    modules.iter().find(|(k, _)| k == id).map(|(_, v)| v)
}

#[test]
fn test_generate_i18n_modules() {
    let translations_by_ns = vec![ns("", &[]), ns("git", &[("commit", "Commit")]), ns("docker", &[("build", "Build")])];
    let modules = generate_i18n_modules(&translations_by_ns);
    assert!(module(&modules, "virtual:i18n").is_none());
    assert!(module(&modules, "virtual:i18n/git").is_some());
    assert!(module(&modules, "virtual:i18n/git").unwrap().contains("export const commit = \"Commit\";"));
    assert!(module(&modules, "virtual:i18n/docker").is_some());
    assert!(module(&modules, "virtual:i18n/docker").unwrap().contains("export const build = \"Build\";"));
}

#[test]
fn i18n_modules_are_sorted_with_sorted_keys() {
    let modules = generate_i18n_modules(&vec![ns("b", &[("z", "Z"), ("a", "A")]), ns("a", &[("k", "K")])]);
    assert_eq!(
        modules,
        vec![
            ("virtual:i18n/a".to_string(), "export const k = \"K\";\n".to_string()),
            ("virtual:i18n/b".to_string(), "export const a = \"A\";\nexport const z = \"Z\";\n".to_string()),
        ]
    );
}

#[test]
fn i18n_module_values_are_json_strings() {
    let modules = generate_i18n_modules(&vec![ns("n", &[("q", "say \"hi\"\n\t\\ \u{1}")])]);
    assert_eq!(modules[0].1, "export const q = \"say \\\"hi\\\"\\n\\t\\\\ \\u0001\";\n");
}

#[test]
fn doc_text_keeps_comments_open() {
    assert_eq!(doc_text_exec("a\nb */ c**/"), "a b * / c** /");
    assert_eq!(doc_text_exec("*/*/"), "* /* /");
}

fn file(lang: &str, entries: &[(&str, I18nValue)]) -> LangFile {
    LangFile {
        lang: lang.to_string(),
        entries: entries
            .iter()
            .map(|(k, v)| {
                (
                    k.to_string(),
                    match v {
                        I18nValue::Text(s) => I18nValue::Text(s.clone()),
                        I18nValue::Json(s) => I18nValue::Json(s.clone()),
                    },
                )
            })
            .collect(),
    }
}

#[test]
fn i18n_tree_is_sorted_and_later_files_win() {
    let dirs = vec![I18nDir {
        ns: "git".to_string(),
        files: vec![
            file("zh", &[("push", I18nValue::Text("推送".to_string())), ("commit", I18nValue::Text("提交".to_string()))]),
            file("en", &[("commit", I18nValue::Text("Commit".to_string())), ("commit", I18nValue::Text("Commit changes".to_string()))]),
        ],
    }];
    let tree = build_i18n_tree(&dirs);
    assert_eq!(tree.len(), 1);
    assert_eq!(tree[0].0, "git");
    let keys: Vec<&str> = tree[0].1.iter().map(|(k, _)| k.as_str()).collect();
    assert_eq!(keys, vec!["commit", "push"]);
    assert_eq!(
        tree[0].1[0].1,
        vec![("en".to_string(), "Commit changes".to_string()), ("zh".to_string(), "提交".to_string())]
    );
}

#[test]
fn i18n_declarations_put_the_preferred_language_first() {
    let dirs = vec![I18nDir {
        ns: "git".to_string(),
        files: vec![
            file("en", &[("commit", I18nValue::Text("Commit".to_string())), ("n", I18nValue::Json("3".to_string()))]),
            file("fr", &[("commit", I18nValue::Text("Valider".to_string()))]),
        ],
    }];
    let out = run_i18n_gen(&dirs, "fr-FR");
    assert_eq!(out.namespaces, 1);
    assert_eq!(
        out.text,
        "declare module \"virtual:i18n/git\" {\n  /**\n   * - 🚩 **fr**: Valider\n   * - **en**: Commit\n   */\n  export const commit: string;\n  /**\n   * - 🚩 **en**: 3\n   */\n  export const n: string;\n}\n\n"
    );
    assert!(out.missing.is_empty());
}

#[test]
fn i18n_declarations_report_keys_without_translation() {
    let dirs = vec![I18nDir {
        ns: "x".to_string(),
        files: vec![file("de", &[("k", I18nValue::Text("K".to_string()))])],
    }];
    let out = run_i18n_gen(&dirs, "ja");
    assert_eq!(out.text, "declare module \"virtual:i18n/x\" {\n  /**\n   * - **de**: K\n   */\n  export const k: string;\n}\n\n");
    assert_eq!(out.missing, vec![("x".to_string(), "k".to_string(), vec!["de".to_string()])]);
}

#[test]
fn i18n_declarations_without_keys() {
    let out = run_i18n_gen(&vec![], "en");
    assert_eq!(out.text, "// No i18n keys found.\n");
    assert_eq!(out.namespaces, 0);
}

#[test]
fn matching_files_follow_the_chain() {
    let files = vec![
        ("zh-cn".to_string(), "/d/zh-cn.json".to_string()),
        ("EN".to_string(), "/d/EN.json".to_string()),
        ("en".to_string(), "/d/en.json".to_string()),
    ];
    let chain = vec!["en".to_string(), "zh".to_string(), "zh-CN".to_string()];
    assert_eq!(
        get_matching_i18n_files(&files, &chain),
        vec![("EN".to_string(), "/d/EN.json".to_string()), ("zh-cn".to_string(), "/d/zh-cn.json".to_string())]
    );
}

#[test]
fn merged_translations_let_later_files_win() {
    let files = vec![
        vec![("b".to_string(), "1".to_string()), ("a".to_string(), "2".to_string())],
        vec![("b".to_string(), "3".to_string())],
    ];
    assert_eq!(merge_translations(&files), vec![("a".to_string(), "2".to_string()), ("b".to_string(), "3".to_string())]);
}

#[test]
fn i18n_namespaces_are_sorted_subdirectories_with_i18n() {
    let dirs = vec![
        SubDir { name: "git".to_string(), path: "/c/git".to_string(), has_i18n: true },
        SubDir { name: "i18n".to_string(), path: "/c/i18n".to_string(), has_i18n: true },
        SubDir { name: "bun".to_string(), path: "/c/bun".to_string(), has_i18n: true },
        SubDir { name: "npm".to_string(), path: "/c/npm".to_string(), has_i18n: false },
    ];
    assert_eq!(
        scan_i18n_dirs(&dirs),
        vec![
            ("bun".to_string(), "/c/bun/i18n".to_string()),
            ("git".to_string(), "/c/git/i18n".to_string()),
        ]
    );
}
