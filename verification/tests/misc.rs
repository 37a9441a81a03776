use sugg::bundle::{
    cache_reusable, deps_unchanged, is_watched_file, dynamic_entry_code, generate_env_code, plan_scripts, virtual_module_ids,
    ScriptFile, VirtualPlugin,
};
use sugg::cache::{CompletionItem, SuggestionStyle};
use sugg::deploy::{path_edit_outcome, path_export_line, profile_files, profile_update, windows_dir, PathEdit};
use sugg::init::{bridge_script_name, init_banner, render_bridge_script, sugg_bin_for, LineStyle};
use sugg::logger::{get_ui_logs, set_ui_mode, write_log, LogLevel, LogRoute, LogState, MAX_UI_LOGS};
use sugg::paths::{cache_file_in, default_completions_dir, engine_file, join, path_to_slash, versioned_declarations};
use sugg::results::{handle_results, items_from_js_objects, items_from_js_strings, render_lines, shell_records, JsSuggestion};
use sugg::shell::Shell;
use sugg::locale::{choose_locale, detect_locale};
use sugg::install::ScriptEntry;
use sugg::ui::{box_edges, byte_len, content_width, listing_lines, TerminalBox};
use std::hash::{Hash, Hasher};

fn item(display: &str, value: &str, description: &str) -> CompletionItem {
    CompletionItem {
        display: display.to_string(),
        value: value.to_string(),
        description: description.to_string(),
        style: None,
    }
}

#[test]
fn shell_names_parse_ignoring_case() {
    assert_eq!(Shell::from_str("ZSH"), Ok(Shell::Zsh));
    assert_eq!(Shell::from_str("nu"), Ok(Shell::Nushell));
    assert_eq!(Shell::from_str("PwSh"), Ok(Shell::Powershell));
    assert_eq!(Shell::from_str("fish"), Ok(Shell::Fish));
    assert_eq!(
        Shell::from_str("tcsh"),
        Err("Unsupported shell: 'tcsh'. Supported shells: nushell, zsh, fish, bash, powershell".to_string())
    );
    assert_eq!(Shell::Powershell.as_str(), "powershell");
    for s in [Shell::Nushell, Shell::Zsh, Shell::Fish, Shell::Bash, Shell::Powershell] {
        assert_eq!(Shell::from_str(s.as_str()), Ok(s));
        assert_eq!(Shell::from_str(&s.as_str().to_uppercase()), Ok(s));
    }
}

#[test]
fn bridge_scripts_and_binary_path() {
    assert_eq!(bridge_script_name(Shell::Nushell), "nushell.nu");
    assert_eq!(bridge_script_name(Shell::Powershell), "powershell.ps1");
    assert_eq!(sugg_bin_for("/opt/sugg", false), "/opt/sugg/bin/sugg");
    assert_eq!(sugg_bin_for("C:\\sugg", true), "C:/sugg/bin/sugg.exe");
    assert_eq!(
        render_bridge_script("run {{SUGG_BIN}} && {{SUGG_BIN}}", "/x/sugg"),
        "run /x/sugg && /x/sugg"
    );
}

#[test]
fn init_banner_names_the_shell() {
    let lines = init_banner(Shell::Bash);
    assert_eq!(lines.len(), 5);
    assert!(lines[0].0.contains("bash shell integration generated successfully!"));
    assert_eq!(lines[0].1, LineStyle::Green);
    assert_eq!(lines[4].0, "    eval \"$(sugg init bash)\"");
    assert_eq!(lines[4].1, LineStyle::Yellow);
    assert_eq!(init_banner(Shell::Nushell).len(), 14);
}

#[test]
fn deploy_profiles_and_path_lines() {
    assert_eq!(path_export_line("/home/u/.sugg/bin"), "export PATH=\"/home/u/.sugg/bin:$PATH\"");
    assert_eq!(profile_files("/bin/zsh"), vec![".zshrc", ".zprofile", ".zshenv"]);
    assert_eq!(profile_files("/usr/bin/bash"), vec![".bashrc", ".bash_profile", ".profile"]);
    assert_eq!(profile_files("/bin/sh"), vec![".profile"]);
    let line = "export PATH=\"/b:$PATH\"";
    assert_eq!(profile_update("# rc\nexport PATH=\"/b:$PATH\"\n", line), None);
    assert_eq!(
        profile_update("# rc\n", line),
        Some("\n# added by sugg deploy\nexport PATH=\"/b:$PATH\"\n".to_string())
    );
    assert_eq!(windows_dir("C:/Users/u/.sugg/bin"), "C:\\Users\\u\\.sugg\\bin");
    assert_eq!(path_edit_outcome("ADDED\r\n"), PathEdit::Added);
    assert_eq!(path_edit_outcome("  EXISTS "), PathEdit::AlreadyThere);
    assert_eq!(path_edit_outcome("error"), PathEdit::Failed);
}

#[test]
fn box_width_and_edges() {
    assert_eq!(content_width(&vec![3, 10, 7], 100), 10);
    assert_eq!(content_width(&vec![3, 50, 7], 40), 28);
    assert_eq!(content_width(&vec![30], 15), 30);
    assert_eq!(content_width(&vec![], 100), 0);
    let (top, bottom) = box_edges(2);
    assert_eq!(top, "  ╭──────╮");
    assert_eq!(bottom, "  ╰──────╯");
    assert_eq!(byte_len("a─"), 4);
}

#[test]
fn ui_logs_are_queued_up_to_the_limit() {
    let mut st = LogState::new();
    assert_eq!(write_log(&mut st, LogLevel::Info, "engine"), LogRoute::Stderr);
    assert!(get_ui_logs(&st).is_empty());
    set_ui_mode(&mut st);
    assert_eq!(write_log(&mut st, LogLevel::Warn, "  first line \nsecond"), LogRoute::Queued);
    assert_eq!(get_ui_logs(&st), vec![(LogLevel::Warn, "first line".to_string())]);
    for _ in 1..MAX_UI_LOGS {
        assert_eq!(write_log(&mut st, LogLevel::Info, "x"), LogRoute::Queued);
    }
    assert_eq!(write_log(&mut st, LogLevel::Error, "dropped"), LogRoute::Dropped);
    assert_eq!(get_ui_logs(&st).len(), MAX_UI_LOGS);
    assert_eq!(LogLevel::Error.text(), "ERR");
    assert_eq!(LogLevel::Warn.color(), "red");
}

#[test]
fn paths_are_joined_with_slashes() {
    assert_eq!(path_to_slash("a\\b\\c"), "a/b/c");
    assert_eq!(join("a", "b"), "a/b");
    assert_eq!(join("a/", "b"), "a/b");
    assert_eq!(join("", "b"), "b");
    assert_eq!(default_completions_dir("/root/.sugg"), "/root/.sugg/completions");
    assert_eq!(cache_file_in("/c"), "/c/.completion_cache.bin");
    assert_eq!(engine_file("/s", true), "/s/sugg-engine.exe");
    assert_eq!(engine_file("/s", false), "/s/sugg-engine");
    assert_eq!(versioned_declarations("1.2.3", "declare x;"), "// Version: 1.2.3\ndeclare x;");
}

#[test]
fn env_module_carries_the_language() {
    let code = generate_env_code("zh", "export const x = 1;");
    assert_eq!(code, "const __LANG = \"zh\";\nexport const x = 1;");
    assert_eq!(generate_env_code("a\"b", ""), "const __LANG = \"a\\\"b\";\n");
}

#[test]
fn script_files_are_planned_in_scan_order() {
    let files = vec![
        ScriptFile { name: "git.ts".to_string(), dir_name: None },
        ScriptFile { name: "README.md".to_string(), dir_name: None },
        ScriptFile { name: "index.ts".to_string(), dir_name: Some("docker".to_string()) },
        ScriptFile { name: "git.js".to_string(), dir_name: None },
    ];
    let (kept, stems, clashes) = plan_scripts(&files, Some("completions"));
    assert_eq!(kept, vec![0, 2]);
    assert_eq!(stems, vec!["git".to_string(), "docker".to_string()]);
    assert_eq!(clashes, vec![3]);
    assert!(cache_reusable(7, 7, true, true, true));
    assert!(!cache_reusable(7, 8, true, true, true));
    assert!(!cache_reusable(7, 7, true, false, true));
}

#[test]
fn top_level_index_takes_the_completions_directory_name() {
    let files = vec![
        ScriptFile { name: "index.ts".to_string(), dir_name: None },
        ScriptFile { name: "index.ts".to_string(), dir_name: Some("docker".to_string()) },
        ScriptFile { name: "mine.ts".to_string(), dir_name: None },
    ];
    let (kept, stems, clashes) = plan_scripts(&files, Some("mine"));
    assert_eq!(kept, vec![0, 1]);
    assert_eq!(stems, vec!["mine".to_string(), "docker".to_string()]);
    assert_eq!(clashes, vec![2]);
    // Without a final name for the directory, the stem stays `index`.
    let lone = vec![ScriptFile { name: "index.ts".to_string(), dir_name: None }];
    let (_, stems, _) = plan_scripts(&lone, None);
    assert_eq!(stems, vec!["index".to_string()]);
}

#[test]
fn virtual_plugin_resolves_and_loads() {
    let (s, d, e) = virtual_module_ids("/c", "git");
    let p = VirtualPlugin {
        virtual_modules: vec![(s.clone(), "static".to_string()), (d.clone(), "dynamic".to_string())],
        env_code: "env".to_string(),
        i18n_modules: vec![("virtual:i18n/git".to_string(), "i18n".to_string())],
    };
    assert_eq!(p.name(), "virtual-plugin");
    assert_eq!(p.resolve_id("virtual:env"), Some("virtual:env".to_string()));
    assert_eq!(p.resolve_id("./other"), None);
    assert_eq!(p.resolve_id(&s), Some(s.clone()));
    assert_eq!(p.load("sugg"), Some("env".to_string()));
    assert_eq!(p.load(&d), Some("dynamic".to_string()));
    assert_eq!(p.load("virtual:i18n/git"), Some("i18n".to_string()));
    assert_eq!(p.load("virtual:i18n/none"), Some(String::new()));
    assert_eq!(p.load("nothing"), None);
    assert_eq!(s, "/c/__v_stat_git.ts");
    assert_eq!(e, "/c/__v_dyn_git.ts");
    assert_eq!(dynamic_entry_code(&e), "export * from '/c/__v_dyn_git.ts';\n");
}

#[test]
fn results_put_log_messages_after_the_first_match() {
    let items = vec![item("status", "status", "Show"), item("stash", "stash", ""), item("add", "add", "")];
    let logs = vec![(LogLevel::Info, "hello".to_string())];
    let r = handle_results(&items, "st", Shell::Bash, 10, &logs);
    assert!(r.msg_lines.is_empty());
    assert_eq!(r.items.len(), 3);
    assert_eq!(r.items[0].value, "status");
    assert_eq!(r.items[1].value, "# hello");
    assert_eq!(r.items[1].description, "hello");
    assert_eq!(r.items[2].value, "stash");

    let z = handle_results(&items, "st", Shell::Zsh, 1, &logs);
    assert_eq!(z.items.len(), 1);
    assert_eq!(z.msg_lines, vec!["__msg__\tℹ️ INFO: hello".to_string()]);

    let none = handle_results(&items, "zz", Shell::Fish, 10, &logs);
    assert_eq!(none.items.len(), 2);
    assert_eq!(none.items[0].value, "# ℹ️ INFO: hello");
    assert_eq!(none.items[1].value, "zz ");
}

#[test]
fn plain_shells_render_one_line_per_item() {
    let items = vec![item("a", "a ", "first"), item("b", "b", "")];
    assert_eq!(render_lines(&items, Shell::Zsh), vec!["a:first".to_string(), "b".to_string()]);
    assert_eq!(render_lines(&items, Shell::Fish), vec!["a\tfirst".to_string(), "b\t".to_string()]);
    assert_eq!(render_lines(&items, Shell::Bash), vec!["a".to_string(), "b".to_string()]);
    let styled = vec![CompletionItem {
        display: "x".to_string(),
        value: "x".to_string(),
        description: "".to_string(),
        style: Some(SuggestionStyle { fg: Some("red".to_string()), bg: None, attr: None }),
    }];
    assert!(shell_records(&styled, Shell::Powershell)[0].style.is_none());
    assert!(shell_records(&styled, Shell::Nushell)[0].style.is_some());
    assert_eq!(shell_records(&styled, Shell::Nushell)[0].display_override, "x");
}

#[test]
fn terminal_box_pads_lines_to_the_widest() {
    let b = TerminalBox::new().line("ab".to_string()).empty_line().line("abcd".to_string());
    assert_eq!(b.lines.len(), 3);
    let l = b.layout(100).unwrap();
    assert_eq!(l.top, "  ╭────────╮");
    assert_eq!(l.bottom, "  ╰────────╯");
    assert_eq!(l.rows, vec!["ab  ".to_string(), "    ".to_string(), "abcd".to_string()]);
    let narrow = TerminalBox::new().line("abcdefghij".to_string()).layout(21).unwrap();
    assert_eq!(narrow.rows, vec!["abcdefghij".to_string()]);
    assert_eq!(narrow.top, "  ╭─────────────╮");
    assert!(TerminalBox::default().lines.is_empty());
}

#[test]
fn detect_locale_returns_non_empty() {
    let lang = detect_locale();
    assert!(!lang.is_empty(), "detect_locale() must never return empty");
}

#[test]
fn detect_locale_matches_sys_locale_when_available() {
    if let Some(sys) = sys_locale::get_locale() {
        if !sys.is_empty() {
            assert_eq!(detect_locale(), sys);
        }
    }
}

#[test]
fn locale_falls_back_to_english() {
    assert_eq!(choose_locale(None), "en");
    assert_eq!(choose_locale(Some(String::new())), "en");
    assert_eq!(choose_locale(Some("zh-CN".to_string())), "zh-CN");
}

fn str_hash(s: &str) -> u64 {
    let mut h = std::collections::hash_map::DefaultHasher::new();
    s.hash(&mut h);
    h.finish()
}

#[test]
fn imports_are_unchanged_only_when_all_hash_alike() {
    let deps = vec![("/p/a.ts".to_string(), str_hash("x")), ("/p/b.ts".to_string(), str_hash("y"))];
    assert!(deps_unchanged(&deps, &vec![Some("x".to_string()), Some("y".to_string())]));
    assert!(!deps_unchanged(&deps, &vec![Some("x".to_string()), Some("z".to_string())]));
    assert!(!deps_unchanged(&deps, &vec![Some("x".to_string()), None]));
    assert!(!deps_unchanged(&deps, &vec![Some("x".to_string())]));
    assert!(deps_unchanged(&vec![], &vec![]));
}

fn registry_entry(name: &str, description: &str, i18n: &[&str]) -> ScriptEntry {
    ScriptEntry {
        name: name.to_string(),
        description: description.to_string(),
        source: format!("{}.ts", name),
        deps: vec![],
        i18n: if i18n.is_empty() {
            vec![]
        } else {
            vec![(name.to_string(), i18n.iter().map(|s| s.to_string()).collect())]
        },
    }
}

#[test]
fn registry_listing_pads_to_the_longest_name() {
    let reg = vec![registry_entry("git", "Git commands", &["en", "zh"]), registry_entry("docker", "Docker CLI", &[])];
    assert_eq!(
        listing_lines(&reg),
        vec!["  git     Git commands [en, zh]".to_string(), "  docker  Docker CLI".to_string()]
    );
    // Widths count bytes, as the original pads to the longest name's byte length.
    let wide = vec![registry_entry("é", "x", &[]), registry_entry("ab", "y", &[])];
    assert_eq!(listing_lines(&wide), vec!["  é   x".to_string(), "  ab  y".to_string()]);
}

#[test]
fn watching_rebuilds_for_scripts_and_translations() {
    assert!(is_watched_file("git.ts"));
    assert!(is_watched_file("index.js"));
    assert!(is_watched_file("zh-CN.json"));
    assert!(!is_watched_file("README.md"));
    assert!(!is_watched_file(".json"));
    assert!(!is_watched_file("ts"));
    assert!(is_watched_file("types.d.ts"));
}

#[test]
fn suggestion_objects_give_alias_items_then_the_main_item() {
    let objs = vec![
        JsSuggestion {
            display: "checkout".to_string(),
            description: "Switch branches".to_string(),
            style: None,
            aliases: Some(vec!["co".to_string()]),
            value: None,
        },
        JsSuggestion {
            display: "main".to_string(),
            description: String::new(),
            style: None,
            aliases: None,
            value: Some("origin/main".to_string()),
        },
    ];
    assert_eq!(
        items_from_js_objects(&objs),
        vec![
            item("co", "co ", "Switch branches"),
            item("checkout", "checkout ", "Switch branches"),
            item("main", "origin/main", ""),
        ]
    );
    assert_eq!(items_from_js_objects(&vec![]), vec![]);
}

#[test]
fn plain_string_suggestions_keep_their_text_as_value() {
    let strs = vec!["alpha".to_string(), "beta gamma".to_string()];
    assert_eq!(
        items_from_js_strings(&strs),
        vec![item("alpha", "alpha", ""), item("beta gamma", "beta gamma", "")]
    );
}
