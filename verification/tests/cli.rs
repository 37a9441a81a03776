use sugg::cache::{CommandNode, CompletionCache, OptionItem, StaticSuggestion};
use sugg::cli::{parse_cli_state, CompletionContext, ParsedValue};
use sugg::cliargs::{skip_complete_word, ArgEvent, ArgStep, CompleteArgs, ValueSlot};
use sugg::complete::plan_completion;
use sugg::shell::Shell;

fn opt(labels: &[&str], args: u32) -> OptionItem {
    OptionItem {
        labels: labels.iter().map(|s| s.to_string()).collect(),
        args_count: args,
        takes_value: args > 0,
        ..Default::default()
    }
}

fn node(name: &str, args: u32, options: Vec<OptionItem>, subs: Vec<CommandNode>) -> CommandNode {
    CommandNode { name: name.to_string(), args_count: args, options, subcommands: subs, ..Default::default() }
}

fn tree() -> CommandNode {
    let opts = node("opts", 0, vec![opt(&["--mode", "-m"], 1), opt(&["-g", "--global"], 0)], vec![]);
    let run = node("run", 1, vec![], vec![]);
    let testkit = node("testkit", 0, vec![opt(&["--cwd"], 1)], vec![opts, run]);
    node("", 0, vec![], vec![testkit])
}

fn words(v: &[&str]) -> Vec<String> {
    v.iter().map(|s| s.to_string()).collect()
}

fn values(r: &sugg::cli::ParseResult, key: &str) -> Option<Vec<String>> {
    r.options.iter().find(|(k, _)| k == key).and_then(|(_, v)| match v {
        ParsedValue::Values(vs) => Some(vs.clone()),
        ParsedValue::Flag => None,
    })
}

fn is_flag(r: &sugg::cli::ParseResult, key: &str) -> bool {
    r.options.iter().any(|(k, v)| k == key && matches!(v, ParsedValue::Flag))
}

#[test]
fn options_are_collected_under_all_labels() {
    let root = tree();
    let r = parse_cli_state(&root, &words(&["testkit", "opts", "-m", "dev", "-g"]));
    assert_eq!(values(&r, "--mode"), Some(words(&["dev"])));
    assert_eq!(values(&r, "-m"), Some(words(&["dev"])));
    assert!(is_flag(&r, "--global"));
    match r.ctx {
        CompletionContext::Node(p) => assert_eq!(p, vec![0, 0]),
        _ => panic!("expected a node"),
    }
}

#[test]
fn an_option_without_its_value_waits() {
    let root = tree();
    let r = parse_cli_state(&root, &words(&["testkit", "opts", "--mode"]));
    match r.ctx {
        CompletionContext::OptionValue(p, o) => {
            assert_eq!(p, vec![0, 0]);
            assert_eq!(o, 0);
        }
        _ => panic!("expected an option value"),
    }
    let r2 = parse_cli_state(&root, &words(&["testkit", "opts", "--mode=x"]));
    assert_eq!(values(&r2, "-m"), Some(words(&["x"])));
}

#[test]
fn double_dash_ends_option_parsing() {
    let root = tree();
    let r = parse_cli_state(&root, &words(&["testkit", "--", "--cwd", "opts"]));
    assert!(values(&r, "--cwd").is_none());
    match r.ctx {
        CompletionContext::Node(p) => assert_eq!(p, vec![0, 0]),
        _ => panic!("expected a node"),
    }
}

#[test]
fn positional_tokens_are_counted() {
    let root = tree();
    let r = parse_cli_state(&root, &words(&["testkit", "run"]));
    assert_eq!(r.positional_remaining, 1);
    let r = parse_cli_state(&root, &words(&["testkit", "run", "dev"]));
    assert_eq!(r.positional_remaining, 0);
    assert_eq!(r.positional_args, words(&["dev"]));
}

#[test]
fn completion_offers_subcommands_or_options() {
    let mut root = tree();
    root.subcommands[0].subcommands[1].static_args = Some(vec![StaticSuggestion {
        display: "dev".to_string(),
        value: "dev".to_string(),
        description: "Dev".to_string(),
        style: None,
    }]);
    let cache = CompletionCache { root, ..Default::default() };
    let plan = plan_completion(&cache, &words(&["testkit", ""]));
    let shown: Vec<&str> = plan.items.iter().map(|i| i.display.as_str()).collect();
    assert_eq!(shown, vec!["opts", "run"]);
    assert_eq!(plan.items[0].value, "opts ");
    let plan = plan_completion(&cache, &words(&["testkit", "-"]));
    let shown: Vec<&str> = plan.items.iter().map(|i| i.display.as_str()).collect();
    assert_eq!(shown, vec!["--cwd"]);
    let plan = plan_completion(&cache, &words(&["testkit", "run", "d"]));
    let shown: Vec<&str> = plan.items.iter().map(|i| i.display.as_str()).collect();
    assert_eq!(shown, vec!["dev"]);
    assert!(plan.dynamic.is_none());
}

#[test]
fn complete_arguments_name_the_shell_then_the_words() {
    let mut a = CompleteArgs::new();
    assert_eq!(a.max_results, 50);
    assert_eq!(a.on_arg(ArgEvent::Value("Zsh".to_string())), ArgStep::Next);
    assert_eq!(a.shell, Some(Shell::Zsh));
    assert_eq!(a.on_arg(ArgEvent::Long("max-results".to_string())), ArgStep::NeedValue(ValueSlot::MaxResults));
    a.on_value(ValueSlot::MaxResults, Some("20".to_string()));
    assert_eq!(a.max_results, 20);
    a.on_value(ValueSlot::MaxResults, Some("many".to_string()));
    assert_eq!(a.max_results, 20);
    assert_eq!(a.on_arg(ArgEvent::Long("cache-dir".to_string())), ArgStep::NeedValue(ValueSlot::CacheDir));
    a.on_value(ValueSlot::CacheDir, Some("/c".to_string()));
    assert_eq!(a.cache_dir, Some("/c".to_string()));
    assert_eq!(a.on_arg(ArgEvent::Value("git".to_string())), ArgStep::Next);
    assert_eq!(a.on_arg(ArgEvent::Value("-h".to_string())), ArgStep::Next);
    assert_eq!(a.input_words, words(&["git", "-h"]));
    assert_eq!(a.on_arg(ArgEvent::Short('h')), ArgStep::Help);
    assert_eq!(a.on_arg(ArgEvent::Long("help".to_string())), ArgStep::Help);
    assert_eq!(a.on_arg(ArgEvent::Short('x')), ArgStep::Next);
}

#[test]
fn an_unknown_shell_is_reported() {
    let mut a = CompleteArgs::new();
    match a.on_arg(ArgEvent::Value("tcsh".to_string())) {
        ArgStep::BadShell(m) => assert_eq!(m, "Unsupported shell: 'tcsh'. Supported shells: nushell, zsh, fish, bash, powershell"),
        _ => panic!("expected an error"),
    }
    assert_eq!(a.shell, None);
}

#[test]
fn the_complete_word_is_skipped() {
    assert_eq!(skip_complete_word(words(&["complete", "zsh"])), words(&["zsh"]));
    assert_eq!(skip_complete_word(words(&["zsh", "complete"])), words(&["zsh", "complete"]));
}

#[test]
fn an_alias_completes_as_its_target() {
    let install = node("install", 1, vec![opt(&["--dev", "-D"], 0)], vec![]);
    let mut i = node("i", 0, vec![], vec![]);
    i.target = Some(0);
    let root = node("", 0, vec![], vec![install, i]);
    for rest in [vec![], vec!["-D"], vec!["pkg", "-D"]] {
        let mut via_alias = words(&["i"]);
        via_alias.extend(words(&rest));
        let mut via_name = words(&["install"]);
        via_name.extend(words(&rest));
        let a = parse_cli_state(&root, &via_alias);
        let b = parse_cli_state(&root, &via_name);
        match (&a.ctx, &b.ctx) {
            (CompletionContext::Node(p), CompletionContext::Node(q)) => assert_eq!((p, q), (&vec![0], &vec![0])),
            _ => panic!("expected nodes"),
        }
        assert_eq!(a.positional_remaining, b.positional_remaining);
        assert_eq!(a.positional_args, b.positional_args);
        assert_eq!(is_flag(&a, "-D"), is_flag(&b, "-D"));
    }
}

#[test]
fn values_of_an_option_are_shared_by_its_labels() {
    let root = node("", 0, vec![opt(&["--exclude", "-e"], 1)], vec![]);
    let r = parse_cli_state(&root, &words(&["--exclude", "react", "-e", "vue"]));
    assert_eq!(values(&r, "--exclude"), Some(words(&["react", "vue"])));
    assert_eq!(values(&r, "-e"), Some(words(&["react", "vue"])));
    match r.ctx {
        CompletionContext::Node(p) => assert_eq!(p, Vec::<usize>::new()),
        _ => panic!("expected the root node"),
    }
}

#[test]
fn an_option_label_is_never_taken_as_a_value() {
    let root = tree();
    let r = parse_cli_state(&root, &words(&["testkit", "opts", "--mode", "-g"]));
    assert_eq!(values(&r, "--mode"), None);
    assert!(is_flag(&r, "-g"));
    assert!(is_flag(&r, "--global"));
}
