use mak::command::{database_args, make_args, missing_makefile_exit_code, target_args};
use mak::graph::{clone_names, TargetGraph};
use mak::progress::{
    indentation, is_blank_line, message_after, phase, position, task_label, Phase, ProgressEntry,
};
use mak::scheduler::{Failure, TaskState};

fn list(names: &[&str]) -> Vec<String> {
    names.iter().map(|name| name.to_string()).collect()
}

#[test]
fn make_args_names_the_build_file() {
    assert_eq!(make_args(&Some("build.mk".to_string())), list(&["-f", "build.mk"]));
    assert_eq!(make_args(&None), list(&[]));
}

#[test]
fn database_args_ask_for_the_rule_database() {
    assert_eq!(database_args(&None), list(&["-pRrq"]));
    assert_eq!(database_args(&Some("m".to_string())), list(&["-pRrq", "-f", "m"]));
}

#[test]
fn target_args_mark_dependencies_as_up_to_date() {
    assert_eq!(
        target_args(&Some("m".to_string()), &"A".to_string(), &list(&["B", "C"])),
        list(&["-f", "m", "A", "-o", "B", "-o", "C", "--"])
    );
    assert_eq!(target_args(&None, &"D".to_string(), &list(&[])), list(&["D", "--"]));
}

#[test]
fn indentation_grows_with_depth() {
    assert_eq!(indentation(0), "");
    assert_eq!(indentation(1), "\u{2199} ");
    assert_eq!(indentation(2), " \u{2199} ");
    assert_eq!(indentation(4), "   \u{2199} ");
}

#[test]
fn task_label_is_indentation_and_name() {
    assert_eq!(task_label(0, &"all".to_string()), "all");
    assert_eq!(task_label(2, &"lib.o".to_string()), " \u{2199} lib.o");
}

#[test]
fn phase_follows_state() {
    assert_eq!(phase(TaskState::Pending), Phase::Queued);
    assert_eq!(phase(TaskState::Running), Phase::Running);
    assert_eq!(phase(TaskState::Succeeded), Phase::Done);
    assert_eq!(phase(TaskState::Failed(Failure { task: 0, code: 1 })), Phase::Done);
    assert_eq!(position(Phase::Queued), 0);
    assert_eq!(position(Phase::Running), 1);
    assert_eq!(position(Phase::Done), 2);
}

#[test]
fn graph_is_built_by_hand() {
    let mut graph = TargetGraph::new();
    assert_eq!(graph.len(), 0);
    graph.insert("a".to_string(), list(&["b", "c"]));
    graph.insert("b".to_string(), list(&[]));
    graph.insert("a".to_string(), list(&["c"]));
    graph.set_default_goal("b".to_string());
    assert_eq!(graph.len(), 2);
    assert_eq!(graph.targets(), list(&["a", "b"]));
    assert_eq!(graph.dependencies("a"), list(&["c"]));
    assert_eq!(graph.dependencies("zzz"), list(&[]));
    assert!(graph.contains("b"));
    assert!(!graph.contains("c"));
    assert_eq!(graph.position("b"), Some(1));
    assert_eq!(graph.position("c"), None);
    assert_eq!(graph.default_goal(), Some("b".to_string()));
    match graph.entry_at(0) {
        Some((name, deps)) => {
            assert_eq!(name, "a");
            assert_eq!(deps, &list(&["c"]));
        }
        None => panic!("the graph has a first entry"),
    }
    assert!(graph.entry_at(2).is_none());
    assert_eq!(clone_names(&list(&["x", "y"])), list(&["x", "y"]));
}

#[test]
fn blank_lines_have_nothing_to_show() {
    assert!(is_blank_line(""));
    assert!(is_blank_line(" \t \u{a0}\r"));
    assert!(!is_blank_line("  gcc -c a.c"));
    assert_eq!(message_after(None, "   "), None);
    assert_eq!(message_after(Some("old".to_string()), "\t"), Some("old".to_string()));
    assert_eq!(message_after(Some("old".to_string()), " new "), Some(" new ".to_string()));
}

#[test]
fn progress_entry_follows_task_and_output() {
    let mut entry = ProgressEntry::new(3);
    assert_eq!(entry.phase, Phase::Queued);
    assert_eq!(entry.depth, 3);
    assert_eq!(entry.message, None);
    entry.observe(TaskState::Running);
    assert_eq!(entry.phase, Phase::Running);
    entry.output("cc -c main.c");
    entry.output("   ");
    assert_eq!(entry.message, Some("cc -c main.c".to_string()));
    entry.observe(TaskState::Succeeded);
    assert_eq!(entry.phase, Phase::Done);
    assert_eq!(entry.depth, 3);
    assert_eq!(entry.message, Some("cc -c main.c".to_string()));
}

#[test]
fn default_graph_is_empty() {
    let graph = TargetGraph::default();
    assert_eq!(graph.len(), 0);
    assert_eq!(graph.default_goal(), None);
    assert_eq!(graph.default_target(), None);
    assert!(graph.targets().is_empty());
}

#[test]
fn missing_build_file_fails_unless_targets_are_listed() {
    assert_eq!(missing_makefile_exit_code(false), 1);
    assert_eq!(missing_makefile_exit_code(true), 0);
}
