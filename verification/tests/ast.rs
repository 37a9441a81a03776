use sugg::ast::{
    analyze_dynamic_apis, assign_dynamic_ids, clean_diagnostic, clean_label_exec, context_name_exec, extract_dynamics,
    generate_minimal_dynamic_module, label_context_exec, needed_statements, placeholder_exec, replace_ranges, DynamicCall, TopStatement,
};

fn strings(v: &[&str]) -> Vec<String> {
    v.iter().map(|s| s.to_string()).collect()
}

#[test]
fn labels_are_cleaned_into_names() {
    assert_eq!(clean_label_exec("--log-level"), "log_level");
    assert_eq!(clean_label_exec("-v"), "v");
    assert_eq!(clean_label_exec("---"), "");
    assert_eq!(clean_label_exec("--a-b"), "a_b");
    assert_eq!(label_context_exec(&strings(&["--", "-x", "--long"])), Some("x".to_string()));
    assert_eq!(label_context_exec(&strings(&["-", "--"])), None);
}

#[test]
fn context_names_skip_commands() {
    assert_eq!(context_name_exec(&strings(&["config", "commands", "myCmd", "options", "v", "args"])), "config_myCmd_options_v_args");
    assert_eq!(context_name_exec(&strings(&["commands"])), "dynamic");
    assert_eq!(context_name_exec(&strings(&[])), "dynamic");
    assert_eq!(context_name_exec(&strings(&["my-cmd", "x y"])), "my_cmd_x_y");
}

#[test]
fn colliding_names_get_counters() {
    let ids = assign_dynamic_ids(&strings(&["cmd_options_v_args", "x", "cmd_options_v_args", "cmd_options_v_args"]));
    assert_eq!(ids, strings(&["__dyn_cmd_options_v_args", "__dyn_x", "__dyn_cmd_options_v_args_1", "__dyn_cmd_options_v_args_2"]));
}

#[test]
fn placeholders_name_the_function() {
    assert_eq!(placeholder_exec("__dyn_a"), "{ __is_dynamic: true, id: \"__dyn_a\" }");
}

#[test]
fn replacements_apply_in_order() {
    let reps = vec![(6, 9, "Z".to_string()), (0, 1, "xy".to_string())];
    assert_eq!(replace_ranges("abcdefghij", &reps), "xybcdefZj");
}

#[test]
fn needed_statements_follow_uses() {
    // 0 uses 1, 1 uses 2, 3 uses 0; a function uses 1.
    let deps = vec![vec![1], vec![2], vec![], vec![0], vec![9]];
    assert_eq!(needed_statements(&deps, &vec![1]), vec![false, true, true, false, false]);
    assert_eq!(needed_statements(&deps, &vec![3, 7]), vec![true, true, true, true, false]);
    assert_eq!(needed_statements(&deps, &vec![]), vec![false; 5]);
}

#[test]
fn extraction_rewrites_calls_and_builds_the_module() {
    let source = "import x from 'y';\nconst helper = 1;\nconst other = 2;\nexport default { a: dynamic(() => helper) };";
    let call_start = source.find("dynamic(").unwrap();
    let arg_start = call_start + "dynamic(".len();
    let arg_end = source.find(") };").unwrap();
    let calls = vec![DynamicCall {
        start: call_start,
        end: arg_end + 1,
        arg_start,
        arg_end,
        context: strings(&["a"]),
    }];
    let stmts = vec![
        TopStatement { start: 0, end: 18, is_import: true },
        TopStatement { start: 19, end: 36, is_import: false },
        TopStatement { start: 37, end: 53, is_import: false },
        TopStatement { start: 54, end: source.len(), is_import: false },
    ];
    let deps = vec![vec![], vec![], vec![], vec![]];
    let ex = extract_dynamics(source, &calls, &stmts, &deps, &vec![1]);
    assert_eq!(ex.func_ids, strings(&["__dyn_a"]));
    assert_eq!(
        ex.modified_source,
        "import x from 'y';\nconst helper = 1;\nconst other = 2;\nexport default { a: { __is_dynamic: true, id: \"__dyn_a\" } };"
    );
    assert_eq!(
        ex.dynamic_js,
        "import x from 'y';\nconst helper = 1;\n\nexport const __dyn_a = () => helper;\n"
    );
}

#[test]
fn api_use_is_reported_per_dynamic_export() {
    let exports = vec![
        ("__dyn_git_add".to_string(), strings(&["exec", "x", "exec", "readJson"])),
        ("helper".to_string(), strings(&["fetch"])),
        ("__dyn_dl".to_string(), strings(&["fetch", "scanPath"])),
    ];
    let r = analyze_dynamic_apis("export const __dyn_git_add = 1;", &exports);
    assert_eq!(r.len(), 2);
    assert_eq!(r[0].name, "__dyn_git_add");
    assert_eq!(r[0].apis, strings(&["exec", "readJson"]));
    assert_eq!(r[1].name, "__dyn_dl");
    assert_eq!(r[1].apis, strings(&["fetch", "scanPath"]));
    assert!(analyze_dynamic_apis("   ", &exports).is_empty());
}

#[test]
fn diagnostics_lose_virtual_prefixes() {
    assert_eq!(clean_diagnostic("in /x/__v_stat_git.ts and /x/__v_dyn_git.ts"), "in /x/git.ts and /x/git.ts");
}

#[test]
fn minimal_module_keeps_imports_and_needed_statements() {
    let source = "import a from 'a';\nconst h = 1;\nconst u = h;\nconst z = 3;\nf(dynamic(() => u));";
    let stmts = vec![
        TopStatement { start: 0, end: 18, is_import: true },
        TopStatement { start: 19, end: 31, is_import: false },
        TopStatement { start: 32, end: 44, is_import: false },
        TopStatement { start: 45, end: 57, is_import: false },
        TopStatement { start: 58, end: source.len(), is_import: false },
    ];
    let call_start = source.find("dynamic(").unwrap();
    let arg_start = call_start + "dynamic(".len();
    let arg_end = source.find("));").unwrap();
    let calls = vec![DynamicCall { start: call_start, end: arg_end + 1, arg_start, arg_end, context: vec![] }];
    let deps = vec![vec![], vec![], vec![1], vec![], vec![2]];
    let m = generate_minimal_dynamic_module(source, &calls, &strings(&["__dyn_x"]), &stmts, &deps, &vec![2]);
    assert_eq!(m, "import a from 'a';\nconst h = 1;\nconst u = h;\n\nexport const __dyn_x = () => u;\n");
}
