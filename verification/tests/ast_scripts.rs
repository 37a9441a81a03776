// The syntax-tree facts that the engine's parser reports for each script below (the
// `dynamic(..)` calls with the names around them, the top-level statements, and which
// statements each one uses) are written out here by hand, then handed to the library.
use sugg::ast::{analyze_dynamic_apis, extract_dynamics, try_extract_dynamics, DynamicCall, Extraction, TopStatement};

fn strings(v: &[&str]) -> Vec<String> {
    v.iter().map(|s| s.to_string()).collect()
}

/// The `dynamic(..)` call that starts at byte `at`, with its single argument.
fn call_at(source: &str, at: usize, context: &[&str]) -> DynamicCall {
    assert!(source[at..].starts_with("dynamic("));
    let bytes = source.as_bytes();
    let open = at + "dynamic".len();
    let mut depth = 0;
    let mut k = open;
    loop {
        match bytes[k] {
            b'(' => depth += 1,
            b')' => {
                depth -= 1;
                if depth == 0 {
                    break;
                }
            }
            _ => {}
        }
        k += 1;
    }
    DynamicCall { start: at, end: k + 1, arg_start: open + 1, arg_end: k, context: strings(context) }
}

/// The `n`-th (from 0) `dynamic(` call in the source.
fn nth_call(source: &str, n: usize, context: &[&str]) -> DynamicCall {
    let at = source.match_indices("dynamic(").nth(n).unwrap().0;
    call_at(source, at, context)
}

/// The statement that starts with `head` and ends with the first `tail` after it.
fn stmt(source: &str, head: &str, tail: &str) -> TopStatement {
    let start = source.find(head).unwrap();
    let end = start + source[start..].find(tail).unwrap() + tail.len();
    TopStatement { start, end, is_import: false }
}

fn extract(source: &str, calls: Vec<DynamicCall>, stmts: Vec<TopStatement>, deps: Vec<Vec<usize>>, roots: Vec<usize>) -> (String, String, Vec<String>) {
    let Extraction { modified_source, dynamic_js, func_ids } = extract_dynamics(source, &calls, &stmts, &deps, &roots);
    (modified_source, dynamic_js, func_ids)
}

#[test]
fn lib_test_extract_dynamics() {
    let source = r#"
dynamic(async () => {
    return[{ value: "add", description: "Add project" }];
})
const addCommand = {
    args: dynamic(async () => {
        return[{ value: "add", description: "Add project" }];
    })
};

const config = createCompletion({
    options:[{ labels: ['-v'], description: 'version' }],
    args: dynamic(async () => {
        return [{ value: "run", description: "Run project" }];
    })
});

export default config;
        "#;
    let first = nth_call(source, 0, &[]);
    let stmts = vec![
        TopStatement { start: first.start, end: first.end, is_import: false },
        stmt(source, "const addCommand", "};"),
        stmt(source, "const config", "});"),
        stmt(source, "export default", ";"),
    ];
    let calls = vec![first, nth_call(source, 1, &["addCommand", "args"]), nth_call(source, 2, &["config", "args"])];
    let (modified_source, pure_dynamic_js, _func_ids) = extract(source, calls, stmts, vec![vec![], vec![], vec![], vec![2]], vec![]);

    assert!(modified_source.contains("__is_dynamic: true"));
    assert!(modified_source.contains("__dyn_dynamic"));
    assert!(modified_source.contains("__dyn_addCommand_args"));
    assert!(modified_source.contains("__dyn_config_args"));
    assert!(!modified_source.contains("dynamic(async () =>"));

    assert!(!pure_dynamic_js.contains("const config = null;"));
    assert!(!pure_dynamic_js.contains("dynamic(async () =>"));
    assert!(pure_dynamic_js.contains("export const __dyn_dynamic"));
    assert!(pure_dynamic_js.contains("export const __dyn_addCommand_args"));
    assert!(pure_dynamic_js.contains("export const __dyn_config_args"));
    assert!(pure_dynamic_js.contains(r#"return [{ value: "run", description: "Run project" }];"#));
}

#[test]
fn lib_test_label_extraction() {
    let source = r#"
const myCmd = {
    options: [{
        labels: ['-v', '--verbose'],
        args: dynamic(async () => [{ value: "val", description: "a value" }])
    }]
};
export default myCmd;
        "#;
    let calls = vec![nth_call(source, 0, &["myCmd", "options", "v", "args"])];
    let stmts = vec![stmt(source, "const myCmd", "};"), stmt(source, "export default", ";")];
    let (modified_source, pure_dynamic_js, _func_ids) = extract(source, calls, stmts, vec![vec![], vec![0]], vec![]);

    assert!(modified_source.contains("__dyn_myCmd_options_v_args"));
    assert!(modified_source.contains("__is_dynamic: true"));
    assert!(pure_dynamic_js.contains("export const __dyn_myCmd_options_v_args"));
}

#[test]
fn lib_test_label_clean_symbolic() {
    let source = r#"
const cmd = {
    options: [{
        labels: ['--'],
        args: dynamic(async () => [])
    }]
};
export default cmd;
        "#;
    let calls = vec![nth_call(source, 0, &["cmd", "options", "args"])];
    let stmts = vec![stmt(source, "const cmd", "};"), stmt(source, "export default", ";")];
    let (modified_source, _pure_dynamic_js, _func_ids) = extract(source, calls, stmts, vec![vec![], vec![0]], vec![]);

    assert!(modified_source.contains("__dyn_cmd_options_args"));
}

#[test]
fn lib_test_label_collision() {
    let source = r#"
const cmd = {
    options: [{
        labels: ['-v'],
        args: dynamic(async () => [{ value: "v1" }])
    }, {
        labels: ['-v'],
        args: dynamic(async () => [{ value: "v2" }])
    }]
};
export default cmd;
        "#;
    let calls = vec![
        nth_call(source, 0, &["cmd", "options", "v", "args"]),
        nth_call(source, 1, &["cmd", "options", "v", "args"]),
    ];
    let stmts = vec![stmt(source, "const cmd", "};"), stmt(source, "export default", ";")];
    let (modified_source, pure_dynamic_js, _func_ids) = extract(source, calls, stmts, vec![vec![], vec![0]], vec![]);

    assert!(modified_source.contains("__dyn_cmd_options_v_args"));
    assert!(modified_source.contains("__dyn_cmd_options_v_args_1"));
    assert!(pure_dynamic_js.contains("export const __dyn_cmd_options_v_args"));
    assert!(pure_dynamic_js.contains("export const __dyn_cmd_options_v_args_1"));
}

#[test]
fn test_analyze_apis() {
    let js = r#"
export const __dyn_git_add = async (ctx) => {
    const files = await exec("git status --porcelain", {});
    return files.split("\n").map(f => ({ value: f.trim() }));
};

export const __dyn_pnpm_run = async (ctx) => {
    const pkg = await readJson("package.json");
    return Object.keys(pkg.scripts).map(s => ({ value: s }));
};

export const __dyn_download = async (ctx) => {
    const res = await fetch("https://api.example.com/tags", {});
    const tags = await res.json();
    return tags.map(t => ({ value: t.name }));
};
        "#;
    let exports = vec![
        ("__dyn_git_add".to_string(), strings(&["exec", "files", "f"])),
        ("__dyn_pnpm_run".to_string(), strings(&["readJson", "Object", "pkg", "s"])),
        ("__dyn_download".to_string(), strings(&["fetch", "res", "tags", "t"])),
    ];

    let results = analyze_dynamic_apis(js, &exports);
    assert_eq!(results.len(), 3);
    assert_eq!(results[0].name, "__dyn_git_add");
    assert_eq!(results[0].apis, vec!["exec"]);
    assert_eq!(results[1].name, "__dyn_pnpm_run");
    assert_eq!(results[1].apis, vec!["readJson"]);
    assert_eq!(results[2].name, "__dyn_download");
    assert_eq!(results[2].apis, vec!["fetch"]);
}

#[test]
fn test_shadowed_variable_not_included() {
    let source = r#"
async function getBranches() {
    return ["branch1", "branch2"];
}

const branches = dynamic(getBranches);

const cmd = {
    args: dynamic(async (ctx) => {
        const [branches, files] = await Promise.all([getBranches(), ["f1"]]);
        return [...branches, ...files];
    })
};

export default createCompletion({
    cmd: { description: "test", args: branches },
});
        "#;
    let stmts = vec![
        stmt(source, "async function getBranches", "\n}"),
        stmt(source, "const branches", ";"),
        stmt(source, "const cmd", "};"),
        stmt(source, "export default", "});"),
    ];
    let calls = vec![nth_call(source, 0, &["branches"]), nth_call(source, 1, &["cmd", "args"])];
    // Both arguments use `getBranches`; the `branches` inside the arrow function is its own.
    let (_, pure_dynamic_js, _) = extract(source, calls, stmts, vec![vec![], vec![0], vec![0], vec![1]], vec![0, 0]);

    assert!(
        !pure_dynamic_js.contains("const branches = dynamic("),
        "shadowed branches declaration should not appear in dynamic JS"
    );
    assert!(pure_dynamic_js.contains("function getBranches"), "getBranches function should be included");
    assert!(
        pure_dynamic_js.contains("export const __dyn_branches = getBranches"),
        "__dyn_branches export should exist"
    );
}

#[test]
fn test_shadowed_variable_in_pattern() {
    let source = r#"
async function getBranches() {
    return ["branch1", "branch2"];
}
async function getTags() {
    return ["tag1", "tag2"];
}

const branches = dynamic(getBranches);
const tags = dynamic(getTags);

const cmd = {
    args: dynamic(async (ctx) => {
        const [branches, tags] = await Promise.all([getBranches(), getTags()]);
        return [...branches, ...tags];
    })
};

export default createCompletion({
    cmd: { description: "test", args: [branches, tags] },
});
        "#;
    let stmts = vec![
        stmt(source, "async function getBranches", "\n}"),
        stmt(source, "async function getTags", "\n}"),
        stmt(source, "const branches", ";"),
        stmt(source, "const tags", ";"),
        stmt(source, "const cmd", "};"),
        stmt(source, "export default", "});"),
    ];
    let calls = vec![
        nth_call(source, 0, &["branches"]),
        nth_call(source, 1, &["tags"]),
        nth_call(source, 2, &["cmd", "args"]),
    ];
    let deps = vec![vec![], vec![], vec![0], vec![1], vec![0, 1], vec![2, 3]];
    let (_, pure_dynamic_js, _) = extract(source, calls, stmts, deps, vec![0, 1, 0, 1]);

    assert!(!pure_dynamic_js.contains("const branches = dynamic("), "shadowed branches should not appear");
    assert!(!pure_dynamic_js.contains("const tags = dynamic("), "shadowed tags should not appear");
    assert!(pure_dynamic_js.contains("export const __dyn_branches = getBranches"));
    assert!(pure_dynamic_js.contains("export const __dyn_tags = getTags"));
}

#[test]
fn test_analyze_apis_empty() {
    let results = analyze_dynamic_apis("", &vec![]);
    assert!(results.is_empty());

    let results = analyze_dynamic_apis("   ", &vec![]);
    assert!(results.is_empty());
}

#[test]
fn test_analyze_apis_multiple_apis() {
    let js = r#"
export const __dyn_setup = async (ctx) => {
    const cfg = await readJson(".suggrc");
    const dir = cfg.dir || ".";
    const files = await scanPath(dir);
    await exec("mkdir -p " + dir, {});
    return files;
};
        "#;
    let exports = vec![(
        "__dyn_setup".to_string(),
        strings(&["readJson", "cfg", "scanPath", "dir", "exec", "dir", "files"]),
    )];

    let results = analyze_dynamic_apis(js, &exports);
    assert_eq!(results.len(), 1);
    assert_eq!(results[0].name, "__dyn_setup");
    let apis = &results[0].apis;
    assert!(apis.contains(&"readJson".to_string()));
    assert!(apis.contains(&"scanPath".to_string()));
    assert!(apis.contains(&"exec".to_string()));
}

#[test]
fn nested_calls_are_rewritten_one_after_another() {
    // The inner call is rewritten first; the outer call's range is then taken in the text as
    // that rewrite left it, as replacing byte ranges one after another does.
    let source = "x(dynamic(dynamic(1)));";
    let outer = DynamicCall { start: 2, end: 21, arg_start: 10, arg_end: 20, context: vec![] };
    let inner = DynamicCall { start: 10, end: 20, arg_start: 18, arg_end: 19, context: vec![] };
    let x = try_extract_dynamics(source, &vec![outer, inner], &vec![], &vec![], &vec![]).unwrap();
    let mut expected = source.to_string();
    expected.replace_range(10..20, "{ __is_dynamic: true, id: \"__dyn_dynamic_1\" }");
    expected.replace_range(2..21, "{ __is_dynamic: true, id: \"__dyn_dynamic\" }");
    assert_eq!(x.modified_source, expected);
    assert_eq!(x.func_ids, strings(&["__dyn_dynamic", "__dyn_dynamic_1"]));

    // A range that the earlier rewrites leave outside the text gives nothing.
    let short = "dynamic(dynamic(ab))";
    let far = DynamicCall { start: 0, end: 2000, arg_start: 8, arg_end: 19, context: vec![] };
    let near = DynamicCall { start: 8, end: 19, arg_start: 16, arg_end: 18, context: vec![] };
    assert!(try_extract_dynamics(short, &vec![far, near], &vec![], &vec![], &vec![]).is_none());
}
