use putzen_cli::cleaner::{Clean, DoCleanUp, DryRunCleaner, IoFailure, ProperCleaner};
use putzen_cli::decider::{Decide, Decision, DecisionContext, DecisionMemory, ScriptedDecider};
use putzen_cli::run::{fold_outcome, run_cleanup};
use putzen_cli::apply_decision;
use putzen_cli::tree::{FsEntry, FsNode};
use putzen_cli::walker::walk;
use putzen_cli::{FileToFolderMatch, Folder, FolderProcessed, IsFolderToRemove, RunConfig};

fn file(name: &str, size: u64) -> FsEntry {
    FsEntry { name: name.to_string(), node: FsNode::File { size } }
}

fn dir(name: &str, entries: Vec<FsEntry>) -> FsEntry {
    FsEntry { name: name.to_string(), node: FsNode::Dir { entries } }
}

fn builtin_rules() -> Vec<FileToFolderMatch> {
    vec![
        FileToFolderMatch::new("Cargo.toml", "target"),
        FileToFolderMatch::new("package.json", "node_modules"),
        FileToFolderMatch::new("CMakeLists.txt", "build"),
    ]
}

fn config(dry_run: bool, auto_confirm: bool) -> RunConfig {
    RunConfig { dry_run, auto_confirm, follow_symlinks: false, include_hidden: false }
}

fn path(parts: &[&str]) -> Vec<String> {
    parts.iter().map(|p| p.to_string()).collect()
}

fn has_path(tree: &FsNode, parts: &[&str]) -> bool {
    tree.lookup_node(&path(parts)).is_some()
}

#[test]
fn should_size() {
    assert_eq!(1_048_576, 1024 << 10);
}

#[test]
fn test_trait_is_folder_to_remove() {
    let rule = FileToFolderMatch::new("Cargo.toml", "target");

    let target_folder = Folder {
        path: path(&["work", "target"]),
        parent_files: path(&["Cargo.toml"]),
    };
    assert!(rule.is_folder_to_remove(&target_folder));

    let crate_root_folder = Folder {
        path: path(&["work"]),
        parent_files: path(&["Cargo.toml"]),
    };
    assert!(!rule.is_folder_to_remove(&crate_root_folder));
}

#[test]
fn test_e2e_scenario() {
    // root: Cargo.toml + target/some_artefact, package.json +
    // node_modules/some_artefact, bar/ with package.json +
    // bar/node_modules/some_artefact
    let mut tree = FsNode::Dir {
        entries: vec![
            file("Cargo.toml", 0),
            dir("target", vec![file("some_artefact", 0)]),
            file("package.json", 0),
            dir("node_modules", vec![file("some_artefact", 0)]),
            dir(
                "bar",
                vec![
                    file("package.json", 0),
                    dir("node_modules", vec![file("some_artefact", 0)]),
                ],
            ),
        ],
    };
    let rules = builtin_rules();
    let mut decider = ScriptedDecider::new(vec![]);
    run_cleanup(&mut tree, &config(false, true), &rules, &ProperCleaner, &mut decider);

    assert!(!has_path(&tree, &["target"]));
    assert!(!has_path(&tree, &["node_modules"]));
    assert!(!has_path(&tree, &["bar", "node_modules"]));

    assert!(has_path(&tree, &["Cargo.toml"]));
    assert!(has_path(&tree, &["package.json"]));
    assert!(has_path(&tree, &["bar", "package.json"]));
}

#[test]
fn end_to_end_totals() {
    // 10 bytes under target, 20 under node_modules, 5 under bar/node_modules:
    // an auto-confirmed real run frees exactly 35 bytes
    let mut tree = FsNode::Dir {
        entries: vec![
            file("Cargo.toml", 1),
            dir("target", vec![file("file.bin", 10)]),
            file("package.json", 2),
            dir("node_modules", vec![file("file.bin", 20)]),
            dir(
                "bar",
                vec![
                    file("package.json", 3),
                    dir("node_modules", vec![file("file.bin", 5)]),
                ],
            ),
        ],
    };
    let rules = builtin_rules();
    let mut decider = ScriptedDecider::new(vec![]);
    let report = run_cleanup(&mut tree, &config(false, true), &rules, &ProperCleaner, &mut decider);

    assert_eq!(report.total_freed, 35);
    assert!(!report.aborted);
    assert_eq!(report.outcomes.len(), 3);
    for outcome in &report.outcomes {
        assert!(matches!(outcome, FolderProcessed::Cleaned(_)));
    }
    assert!(!has_path(&tree, &["target"]));
    assert!(!has_path(&tree, &["node_modules"]));
    assert!(!has_path(&tree, &["bar", "node_modules"]));
    assert!(has_path(&tree, &["Cargo.toml"]));
    assert!(has_path(&tree, &["package.json"]));
    assert!(has_path(&tree, &["bar", "package.json"]));
}

#[test]
fn second_run_frees_nothing() {
    let mut tree = FsNode::Dir {
        entries: vec![
            file("Cargo.toml", 1),
            dir("target", vec![file("a.o", 10), dir("debug", vec![file("b.o", 7)])]),
            dir("sub", vec![file("package.json", 0), dir("node_modules", vec![file("x", 3)])]),
        ],
    };
    let rules = builtin_rules();
    let mut decider = ScriptedDecider::new(vec![]);
    let first = run_cleanup(&mut tree, &config(false, true), &rules, &ProperCleaner, &mut decider);
    assert_eq!(first.total_freed, 20);

    let mut decider2 = ScriptedDecider::new(vec![]);
    let second =
        run_cleanup(&mut tree, &config(false, true), &rules, &ProperCleaner, &mut decider2);
    assert_eq!(second.total_freed, 0);
    assert_eq!(second.outcomes.len(), 0);
    assert!(!second.aborted);
}

#[test]
fn dry_run_changes_nothing() {
    let mut tree = FsNode::Dir {
        entries: vec![
            file("Cargo.toml", 1),
            dir("target", vec![file("a.o", 10)]),
            file("readme", 4),
        ],
    };
    let rules = builtin_rules();
    let before_size = tree.calculate_size();

    // regardless of what the decisions are
    let mut decider = ScriptedDecider::new(vec![Decision::Yes, Decision::No]);
    let report =
        run_cleanup(&mut tree, &config(true, false), &rules, &DryRunCleaner, &mut decider);

    assert_eq!(report.total_freed, 0);
    assert_eq!(tree.calculate_size(), before_size);
    assert!(has_path(&tree, &["target"]));
    assert!(has_path(&tree, &["target", "a.o"]));
    assert!(has_path(&tree, &["Cargo.toml"]));
    assert!(has_path(&tree, &["readme"]));
    assert_eq!(report.outcomes, vec![FolderProcessed::Skipped]);
}

#[test]
fn dry_run_with_auto_confirm_changes_nothing() {
    let mut tree = FsNode::Dir {
        entries: vec![file("package.json", 0), dir("node_modules", vec![file("m", 9)])],
    };
    let rules = builtin_rules();
    let mut decider = ScriptedDecider::new(vec![]);
    let report = run_cleanup(&mut tree, &config(true, true), &rules, &DryRunCleaner, &mut decider);
    assert_eq!(report.total_freed, 0);
    assert!(has_path(&tree, &["node_modules", "m"]));
    assert_eq!(report.outcomes, vec![FolderProcessed::Skipped]);
}

#[test]
fn abort_stops_the_run() {
    // three candidates in walk order: target, then a/node_modules, then
    // b/node_modules; answer Yes, then Quit
    let mut tree = FsNode::Dir {
        entries: vec![
            file("Cargo.toml", 0),
            dir("target", vec![file("one", 1)]),
            dir("a", vec![file("package.json", 0), dir("node_modules", vec![file("two", 2)])]),
            dir("b", vec![file("package.json", 0), dir("node_modules", vec![file("three", 4)])]),
        ],
    };
    let rules = builtin_rules();
    let mut decider = ScriptedDecider::new(vec![Decision::Yes, Decision::Quit]);
    let report = run_cleanup(&mut tree, &config(false, false), &rules, &ProperCleaner, &mut decider);

    assert!(report.aborted);
    assert_eq!(
        report.outcomes,
        vec![FolderProcessed::Cleaned(1), FolderProcessed::Abort]
    );
    assert_eq!(report.total_freed, 1);
    assert!(!has_path(&tree, &["target"]));
    // the candidates after the abort were never touched
    assert!(has_path(&tree, &["a", "node_modules", "two"]));
    assert!(has_path(&tree, &["b", "node_modules", "three"]));
}

#[test]
fn unanswered_prompt_aborts() {
    // an exhausted script stands for an unanswered prompt: the run must stop,
    // not continue
    let mut tree = FsNode::Dir {
        entries: vec![
            file("Cargo.toml", 0),
            dir("target", vec![file("one", 1)]),
        ],
    };
    let rules = builtin_rules();
    let mut decider = ScriptedDecider::new(vec![]);
    let report = run_cleanup(&mut tree, &config(false, false), &rules, &ProperCleaner, &mut decider);
    assert!(report.aborted);
    assert_eq!(report.outcomes, vec![FolderProcessed::Abort]);
    assert!(has_path(&tree, &["target", "one"]));
}

#[test]
fn auto_confirm_never_prompts() {
    let mut tree = FsNode::Dir {
        entries: vec![
            file("Cargo.toml", 0),
            dir("target", vec![file("one", 1)]),
            dir("a", vec![file("package.json", 0), dir("node_modules", vec![file("two", 2)])]),
        ],
    };
    let rules = builtin_rules();
    let mut decider = ScriptedDecider::new(vec![]);
    let report = run_cleanup(&mut tree, &config(false, true), &rules, &ProperCleaner, &mut decider);
    assert_eq!(report.total_freed, 3);
    // no prompt was ever issued: the script position never moved
    assert_eq!(decider.next, 0);
    assert!(decider.memory.has_sticky_yes);
}

#[test]
fn sticky_yes_suppresses_later_prompts() {
    let mut memory = DecisionMemory::new();
    let ctx = DecisionContext { is_dry_run: false, yes_to_all: true };
    assert_eq!(memory.preliminary(&ctx), Some(Decision::Yes));
    assert!(memory.has_sticky_yes);

    // once sticky, even a context without auto-confirm prompts no more
    let plain = DecisionContext { is_dry_run: false, yes_to_all: false };
    assert_eq!(memory.preliminary(&plain), Some(Decision::Yes));
    assert!(memory.has_sticky_yes);

    let mut fresh = DecisionMemory::new();
    assert_eq!(fresh.preliminary(&plain), None);
    assert!(!fresh.has_sticky_yes);
}

#[test]
fn interpret_answer_maps_all_cases() {
    assert_eq!(DecisionMemory::interpret_answer(Some(true)), Decision::Yes);
    assert_eq!(DecisionMemory::interpret_answer(Some(false)), Decision::No);
    assert_eq!(DecisionMemory::interpret_answer(None), Decision::Quit);
}

#[test]
fn scripted_decider_follows_its_script() {
    let mut decider = ScriptedDecider::new(vec![Decision::No, Decision::Yes]);
    let ctx = DecisionContext { is_dry_run: false, yes_to_all: false };
    assert_eq!(decider.obtain_decision(&ctx, "delete?"), Decision::No);
    assert_eq!(decider.obtain_decision(&ctx, "delete?"), Decision::Yes);
    // past the end of the script every prompt is unanswered
    assert_eq!(decider.obtain_decision(&ctx, "delete?"), Decision::Quit);
}

#[test]
fn proper_cleaner_removes_subtree_and_nothing_else() {
    let mut tree = FsNode::Dir {
        entries: vec![
            file("Cargo.toml", 1),
            dir("target", vec![file("a.o", 10), dir("deep", vec![file("b.o", 20)])]),
            file("sibling", 5),
        ],
    };
    let result = ProperCleaner.do_cleanup(&mut tree, &path(&["target"]));
    assert!(matches!(result, Ok(Clean::Cleaned)));
    assert!(!has_path(&tree, &["target"]));
    assert!(!has_path(&tree, &["target", "deep", "b.o"]));
    assert!(has_path(&tree, &["Cargo.toml"]));
    assert!(has_path(&tree, &["sibling"]));
    assert_eq!(tree.calculate_size(), 6);
}

#[test]
fn proper_cleaner_reports_missing_path() {
    let mut tree = FsNode::Dir { entries: vec![file("Cargo.toml", 1)] };
    let result = ProperCleaner.do_cleanup(&mut tree, &path(&["target"]));
    assert_eq!(result, Err(IoFailure::NotFound));
    assert!(has_path(&tree, &["Cargo.toml"]));
}

#[test]
fn proper_cleaner_rejects_file_path() {
    let mut tree = FsNode::Dir { entries: vec![file("Cargo.toml", 1)] };
    let result = ProperCleaner.do_cleanup(&mut tree, &path(&["Cargo.toml"]));
    assert_eq!(result, Err(IoFailure::NotADirectory));
    assert!(has_path(&tree, &["Cargo.toml"]));
}

#[test]
fn dry_run_cleaner_touches_nothing() {
    let mut tree = FsNode::Dir {
        entries: vec![file("Cargo.toml", 1), dir("target", vec![file("a.o", 10)])],
    };
    let result = DryRunCleaner.do_cleanup(&mut tree, &path(&["target"]));
    assert!(matches!(result, Ok(Clean::NotCleaned)));
    assert!(has_path(&tree, &["target", "a.o"]));
    assert_eq!(tree.calculate_size(), 11);
}

#[test]
fn walker_prunes_matched_directories() {
    // target itself holds what looks like another candidate; the walk must
    // emit target only and never look inside it
    let tree = FsNode::Dir {
        entries: vec![
            file("Cargo.toml", 0),
            dir(
                "target",
                vec![file("package.json", 0), dir("node_modules", vec![file("x", 1)])],
            ),
        ],
    };
    let found = walk(&tree, &config(false, true), &builtin_rules());
    assert_eq!(found.len(), 1);
    assert_eq!(found[0].path, path(&["target"]));
    assert_eq!(found[0].parent_files, path(&["Cargo.toml"]));
}

#[test]
fn walker_needs_the_marker_file() {
    // a directory named target without a Cargo.toml beside it is no candidate
    let tree = FsNode::Dir {
        entries: vec![file("README.md", 0), dir("target", vec![file("a.o", 1)])],
    };
    let found = walk(&tree, &config(false, true), &builtin_rules());
    assert_eq!(found.len(), 0);
}

#[test]
fn walker_marker_must_be_a_file() {
    // a directory named Cargo.toml does not mark its sibling
    let tree = FsNode::Dir {
        entries: vec![dir("Cargo.toml", vec![]), dir("target", vec![file("a.o", 1)])],
    };
    let found = walk(&tree, &config(false, true), &builtin_rules());
    assert_eq!(found.len(), 0);
}

#[test]
fn walker_skips_hidden_directories_by_default() {
    let tree = FsNode::Dir {
        entries: vec![dir(
            ".cache",
            vec![file("package.json", 0), dir("node_modules", vec![file("x", 1)])],
        )],
    };
    let hidden_off = RunConfig {
        dry_run: false,
        auto_confirm: true,
        follow_symlinks: false,
        include_hidden: false,
    };
    assert_eq!(walk(&tree, &hidden_off, &builtin_rules()).len(), 0);

    let hidden_on = RunConfig { include_hidden: true, ..hidden_off };
    let found = walk(&tree, &hidden_on, &builtin_rules());
    assert_eq!(found.len(), 1);
    assert_eq!(found[0].path, path(&[".cache", "node_modules"]));
}

#[test]
fn walk_order_is_traversal_order() {
    let tree = FsNode::Dir {
        entries: vec![
            file("Cargo.toml", 0),
            dir("target", vec![]),
            dir("z", vec![file("CMakeLists.txt", 0), dir("build", vec![])]),
        ],
    };
    let found = walk(&tree, &config(false, true), &builtin_rules());
    assert_eq!(found.len(), 2);
    assert_eq!(found[0].path, path(&["target"]));
    assert_eq!(found[1].path, path(&["z", "build"]));
}

#[test]
fn first_matching_rule_wins() {
    // a directory that two rules could flag is still processed once
    let rules = vec![
        FileToFolderMatch::new("Cargo.toml", "build"),
        FileToFolderMatch::new("CMakeLists.txt", "build"),
    ];
    let mut tree = FsNode::Dir {
        entries: vec![
            file("Cargo.toml", 0),
            file("CMakeLists.txt", 0),
            dir("build", vec![file("out", 8)]),
        ],
    };
    let mut decider = ScriptedDecider::new(vec![]);
    let report = run_cleanup(&mut tree, &config(false, true), &rules, &ProperCleaner, &mut decider);
    assert_eq!(report.outcomes, vec![FolderProcessed::Cleaned(8)]);
    assert_eq!(report.total_freed, 8);
}

#[test]
fn accept_without_match_is_no_rule_match() {
    let rule = FileToFolderMatch::new("Cargo.toml", "target");
    let folder = Folder { path: path(&["src"]), parent_files: path(&["Cargo.toml"]) };
    let mut tree = FsNode::Dir {
        entries: vec![file("Cargo.toml", 0), dir("src", vec![file("lib.rs", 7)])],
    };
    let ctx = DecisionContext { is_dry_run: false, yes_to_all: true };
    let mut decider = ScriptedDecider::new(vec![]);
    let outcome = folder.accept(&mut tree, &ctx, &rule, &ProperCleaner, &mut decider);
    assert_eq!(outcome, Ok(FolderProcessed::NoRuleMatch));
    assert!(has_path(&tree, &["src", "lib.rs"]));
}

#[test]
fn accept_skips_on_no() {
    let rule = FileToFolderMatch::new("Cargo.toml", "target");
    let folder = Folder { path: path(&["target"]), parent_files: path(&["Cargo.toml"]) };
    let mut tree = FsNode::Dir {
        entries: vec![file("Cargo.toml", 0), dir("target", vec![file("a.o", 3)])],
    };
    let ctx = DecisionContext { is_dry_run: false, yes_to_all: false };
    let mut decider = ScriptedDecider::new(vec![Decision::No]);
    let outcome = folder.accept(&mut tree, &ctx, &rule, &ProperCleaner, &mut decider);
    assert_eq!(outcome, Ok(FolderProcessed::Skipped));
    assert!(has_path(&tree, &["target", "a.o"]));
}

#[test]
fn accept_cleans_on_prompted_yes() {
    let rule = FileToFolderMatch::new("Cargo.toml", "target");
    let folder = Folder { path: path(&["target"]), parent_files: path(&["Cargo.toml"]) };
    let mut tree = FsNode::Dir {
        entries: vec![file("Cargo.toml", 0), dir("target", vec![file("a.o", 3), file("b.o", 4)])],
    };
    let ctx = DecisionContext { is_dry_run: false, yes_to_all: false };
    let mut decider = ScriptedDecider::new(vec![Decision::Yes]);
    let outcome = folder.accept(&mut tree, &ctx, &rule, &ProperCleaner, &mut decider);
    // the reported size is the one measured before the deletion
    assert_eq!(outcome, Ok(FolderProcessed::Cleaned(7)));
    assert!(!has_path(&tree, &["target"]));
    assert!(has_path(&tree, &["Cargo.toml"]));
    assert_eq!(decider.next, 1);
}

#[test]
fn accept_aborts_on_prompted_quit() {
    let rule = FileToFolderMatch::new("Cargo.toml", "target");
    let folder = Folder { path: path(&["target"]), parent_files: path(&["Cargo.toml"]) };
    let mut tree = FsNode::Dir {
        entries: vec![file("Cargo.toml", 0), dir("target", vec![file("a.o", 3)])],
    };
    let ctx = DecisionContext { is_dry_run: false, yes_to_all: false };
    let mut decider = ScriptedDecider::new(vec![Decision::Quit]);
    let outcome = folder.accept(&mut tree, &ctx, &rule, &ProperCleaner, &mut decider);
    assert_eq!(outcome, Ok(FolderProcessed::Abort));
    assert!(has_path(&tree, &["target", "a.o"]));
}

#[test]
fn apply_decision_no_never_deletes() {
    let mut tree = FsNode::Dir {
        entries: vec![file("Cargo.toml", 0), dir("target", vec![file("a.o", 3)])],
    };
    let r = apply_decision(Decision::No, 3, &mut tree, &path(&["target"]), &ProperCleaner);
    assert_eq!(r, Ok(FolderProcessed::Skipped));
    assert!(has_path(&tree, &["target", "a.o"]));
}

#[test]
fn apply_decision_quit_never_continues() {
    let mut tree = FsNode::Dir {
        entries: vec![file("Cargo.toml", 0), dir("target", vec![file("a.o", 3)])],
    };
    let r = apply_decision(Decision::Quit, 3, &mut tree, &path(&["target"]), &ProperCleaner);
    assert_eq!(r, Ok(FolderProcessed::Abort));
    assert!(has_path(&tree, &["target", "a.o"]));
}

#[test]
fn apply_decision_yes_reaches_the_cleaner() {
    let mut tree = FsNode::Dir {
        entries: vec![file("Cargo.toml", 0), dir("target", vec![file("a.o", 3)])],
    };
    let r = apply_decision(Decision::Yes, 3, &mut tree, &path(&["target"]), &ProperCleaner);
    assert_eq!(r, Ok(FolderProcessed::Cleaned(3)));
    assert!(!has_path(&tree, &["target"]));

    let mut tree2 = FsNode::Dir {
        entries: vec![file("Cargo.toml", 0), dir("target", vec![file("a.o", 3)])],
    };
    let r2 = apply_decision(Decision::Yes, 3, &mut tree2, &path(&["target"]), &DryRunCleaner);
    assert_eq!(r2, Ok(FolderProcessed::Skipped));
    assert!(has_path(&tree2, &["target", "a.o"]));

    let mut tree3 = FsNode::Dir { entries: vec![file("Cargo.toml", 0)] };
    let r3 = apply_decision(Decision::Yes, 0, &mut tree3, &path(&["target"]), &ProperCleaner);
    assert_eq!(r3, Err(IoFailure::NotFound));
}

#[test]
fn fold_outcome_accumulates_and_stops() {
    assert_eq!(fold_outcome(10, FolderProcessed::Cleaned(5)), (15, false));
    assert_eq!(fold_outcome(10, FolderProcessed::Skipped), (10, false));
    assert_eq!(fold_outcome(10, FolderProcessed::NoRuleMatch), (10, false));
    assert_eq!(fold_outcome(10, FolderProcessed::Abort), (10, true));
}

#[test]
fn path_to_remove_joins_the_target() {
    let rule = FileToFolderMatch::new("Cargo.toml", "target");
    let folder = Folder { path: path(&["home", "work"]), parent_files: path(&["Cargo.toml"]) };
    let joined = rule.path_to_remove(&folder);
    assert_eq!(joined, Some(path(&["home", "work", "target"])));
}

#[test]
fn calculate_size_sums_all_files() {
    let tree = FsNode::Dir {
        entries: vec![
            file("big", 1_048_576),
            dir("nested", vec![file("mid", 1024), dir("deeper", vec![file("small", 10)])]),
        ],
    };
    assert_eq!(tree.calculate_size(), 1_048_576 + 1024 + 10);
    assert_eq!(FsNode::File { size: 42 }.calculate_size(), 42);
    assert_eq!(FsNode::Dir { entries: vec![] }.calculate_size(), 0);
}

#[test]
fn run_on_a_tree_without_candidates() {
    let mut tree = FsNode::Dir {
        entries: vec![file("Cargo.toml", 3), dir("src", vec![file("lib.rs", 100)])],
    };
    let rules = builtin_rules();
    let mut decider = ScriptedDecider::new(vec![]);
    let report = run_cleanup(&mut tree, &config(false, true), &rules, &ProperCleaner, &mut decider);
    assert_eq!(report.total_freed, 0);
    assert_eq!(report.outcomes.len(), 0);
    assert!(!report.aborted);
    assert_eq!(tree.calculate_size(), 103);
}

#[test]
fn remove_path_deletes_exactly_the_subtree() {
    let mut tree = FsNode::Dir {
        entries: vec![
            dir("a", vec![file("keep", 1), dir("b", vec![file("gone", 2)])]),
            file("top", 4),
        ],
    };
    assert!(tree.remove_path(&path(&["a", "b"])));
    assert!(!has_path(&tree, &["a", "b"]));
    assert!(!has_path(&tree, &["a", "b", "gone"]));
    assert!(has_path(&tree, &["a", "keep"]));
    assert!(has_path(&tree, &["top"]));
    // removing it again finds nothing
    assert!(!tree.remove_path(&path(&["a", "b"])));
}
