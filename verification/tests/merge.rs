use sugg::cache::{find_bytecode, CommandNode, CompletionCache};
use sugg::dynindex::{assemble_cache, DynamicModule};
use sugg::merge::{merge_command_nodes, MergeError};

fn cmd(name: &str, target: Option<u32>) -> CommandNode {
    CommandNode { name: name.to_string(), target, ..Default::default() }
}

fn script(subs: Vec<CommandNode>) -> CommandNode {
    CommandNode { subcommands: subs, ..Default::default() }
}

#[test]
fn merged_commands_are_sorted_with_aliases_remapped() {
    // Script 1: git, and `g` an alias of `git` (index 0 in its own file).
    let s1 = script(vec![cmd("git", None), cmd("g", Some(0))]);
    // Script 2: docker and `d` an alias of docker (index 1 in its own file).
    let s2 = script(vec![cmd("d", Some(1)), cmd("docker", None)]);
    let root = match merge_command_nodes(vec![s1, s2]) {
        Ok(r) => r,
        Err(_) => panic!("merge failed"),
    };
    let names: Vec<&str> = root.subcommands.iter().map(|c| c.name.as_str()).collect();
    assert_eq!(names, vec!["d", "docker", "g", "git"]);
    assert_eq!(root.subcommands[0].target, Some(1));
    assert_eq!(root.subcommands[2].target, Some(3));
    assert_eq!(root.subcommands[1].target, None);
    assert_eq!(root.name, "");
}

#[test]
fn duplicate_top_level_commands_are_refused() {
    let s1 = script(vec![cmd("npm", None), cmd("bun", None)]);
    let s2 = script(vec![cmd("bun", None)]);
    match merge_command_nodes(vec![s1, s2]) {
        Err(MergeError::DuplicateCommand(n)) => assert_eq!(n, "bun"),
        Ok(_) => panic!("duplicate accepted"),
    }
}

#[test]
fn merging_nothing_gives_an_empty_tree() {
    match merge_command_nodes(vec![]) {
        Ok(r) => assert!(r.subcommands.is_empty()),
        Err(_) => panic!("merge failed"),
    }
}

fn module(bc: &[u8], ids: &[&str]) -> DynamicModule {
    DynamicModule { bytecode: bc.to_vec(), func_ids: ids.iter().map(|s| s.to_string()).collect() }
}

#[test]
fn the_index_finds_the_module_that_defines_a_function() {
    let modules = vec![
        module(&[1], &["__dyn_git_branch", "__dyn_git_tag"]),
        module(&[2, 2], &["__dyn_docker_image"]),
        module(&[3], &["__dyn_git_branch"]),
    ];
    let cache: CompletionCache = assemble_cache(CommandNode::default(), &modules);
    assert_eq!(cache.bytecodes, vec![vec![1], vec![2, 2], vec![3]]);
    let ids: Vec<&str> = cache.dyn_index.iter().map(|(f, _)| f.as_str()).collect();
    assert_eq!(ids, vec!["__dyn_docker_image", "__dyn_git_branch", "__dyn_git_branch", "__dyn_git_tag"]);
    assert_eq!(find_bytecode(&cache, &"__dyn_docker_image".to_string()), Some(vec![2, 2]));
    assert_eq!(find_bytecode(&cache, &"__dyn_git_branch".to_string()), Some(vec![1]));
    assert_eq!(find_bytecode(&cache, &"__dyn_git_tag".to_string()), Some(vec![1]));
    assert_eq!(find_bytecode(&cache, &"__dyn_none".to_string()), None);
}

#[test]
fn an_index_entry_past_the_modules_finds_nothing() {
    let cache = CompletionCache {
        root: CommandNode::default(),
        bytecodes: vec![vec![9]],
        dyn_index: vec![("f".to_string(), 1)],
    };
    assert_eq!(find_bytecode(&cache, &"f".to_string()), None);
}
