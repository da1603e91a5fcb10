use mak::graph::TargetGraph;
use mak::plan::Plan;
use mak::resolve::{keeps, prune, read_database, resolve_targets, schedule, ResolveError};
use mak::scheduler::{exit_code, Action, Failure, Outcome, Scheduler, TaskState};

fn read(text: &str) -> TargetGraph {
    TargetGraph::try_from(&text.to_string()).expect("the text is a build file")
}

fn list(names: &[&str]) -> Vec<String> {
    names.iter().map(|name| name.to_string()).collect()
}

fn diamond() -> TargetGraph {
    read("A: B C\nB: D\nC: D\nD:\nE:\n")
}

fn place(plan: &Plan, name: &str) -> usize {
    (0..plan.len())
        .find(|&i| plan.task(i).expect("a task").name == name)
        .expect("the target has a task")
}

#[test]
fn plan_registers_each_target_once_in_walk_order() {
    let plan = Plan::new(&diamond(), &list(&["A"]));
    assert_eq!(plan.len(), 4);
    let names: Vec<String> =
        (0..4).map(|i| plan.task(i).expect("a task").name.clone()).collect();
    assert_eq!(names, list(&["A", "B", "D", "C"]));
    let depths: Vec<usize> = (0..4).map(|i| plan.task(i).expect("a task").depth).collect();
    assert_eq!(depths, vec![0, 1, 2, 1]);
    assert_eq!(plan.task(0).expect("a task").deps, list(&["B", "C"]));
    assert_eq!(plan.dependency_ids(0), Some(&vec![1, 3]));
    assert_eq!(plan.dependency_ids(1), Some(&vec![2]));
    assert_eq!(plan.dependency_ids(2), Some(&vec![]));
    assert_eq!(plan.dependency_ids(3), Some(&vec![2]));
    assert_eq!(plan.dependency_ids(4), None);
    assert!(plan.task(4).is_none());
    assert_eq!(plan.roots(), &vec![0]);
}

#[test]
fn plan_leaves_out_what_is_not_needed() {
    let plan = Plan::new(&diamond(), &list(&["B"]));
    let names: Vec<String> =
        (0..plan.len()).map(|i| plan.task(i).expect("a task").name.clone()).collect();
    assert_eq!(names, list(&["B", "D"]));
}

#[test]
fn plan_treats_undeclared_dependency_as_leaf() {
    let plan = Plan::new(&read("A: src.c\n"), &list(&["A"]));
    assert_eq!(plan.len(), 2);
    let leaf = plan.task(1).expect("a task");
    assert_eq!(leaf.name, "src.c");
    assert!(leaf.deps.is_empty());
    assert_eq!(leaf.depth, 1);
}

#[test]
fn plan_of_repeated_request_has_one_task() {
    let plan = Plan::new(&diamond(), &list(&["D", "D", "B"]));
    assert_eq!(plan.len(), 2);
    assert_eq!(plan.roots(), &vec![0, 0, 1]);
    assert_eq!(plan.task(1).expect("a task").depth, 0);
}

#[test]
fn plan_of_cycle_ends() {
    let plan = Plan::new(&read("A: B\nB: A\n"), &list(&["A"]));
    assert_eq!(plan.len(), 2);
    assert_eq!(plan.dependency_ids(0), Some(&vec![1]));
    assert_eq!(plan.dependency_ids(1), Some(&vec![0]));
}

#[test]
fn empty_plan_has_no_task() {
    let plan = Plan::empty();
    assert_eq!(plan.len(), 0);
    assert!(plan.roots().is_empty());
    let mut scheduler = Scheduler::new(plan);
    assert_eq!(scheduler.next(), Action::Finished);
    assert_eq!(scheduler.outcome(), Outcome::Success);
}

#[test]
fn diamond_builds_shared_dependency_once_and_first() {
    let plan = Plan::new(&diamond(), &list(&["A"]));
    let (a, b, c, d) =
        (place(&plan, "A"), place(&plan, "B"), place(&plan, "C"), place(&plan, "D"));
    let mut scheduler = Scheduler::new(plan);
    let mut launched: Vec<usize> = Vec::new();

    assert_eq!(scheduler.next(), Action::Launch(d));
    launched.push(d);
    assert_eq!(scheduler.next(), Action::Wait);
    assert_eq!(scheduler.state(b), Some(TaskState::Pending));
    assert_eq!(scheduler.state(c), Some(TaskState::Pending));
    assert!(scheduler.finish(d, 0));

    let first = scheduler.next();
    let second = scheduler.next();
    assert_eq!(first, Action::Launch(b));
    assert_eq!(second, Action::Launch(c));
    launched.push(b);
    launched.push(c);
    assert_eq!(scheduler.state(a), Some(TaskState::Pending));
    assert_eq!(scheduler.next(), Action::Wait);
    assert!(scheduler.finish(c, 0));
    assert_eq!(scheduler.next(), Action::Wait);
    assert!(scheduler.finish(b, 0));

    assert_eq!(scheduler.next(), Action::Launch(a));
    launched.push(a);
    assert!(scheduler.finish(a, 0));
    assert_eq!(scheduler.next(), Action::Finished);

    assert_eq!(launched.iter().filter(|&&task| task == d).count(), 1);
    assert_eq!(launched.len(), 4);
    assert_eq!(scheduler.outcome(), Outcome::Success);
    assert_eq!(exit_code(scheduler.outcome()), 0);
    assert_eq!(scheduler.first_failure(), None);
}

#[test]
fn independent_targets_run_at_the_same_time() {
    let plan = Plan::new(&read("X:\nY:\n"), &list(&["X", "Y"]));
    let mut scheduler = Scheduler::new(plan);
    assert_eq!(scheduler.next(), Action::Launch(0));
    assert_eq!(scheduler.next(), Action::Launch(1));
    assert_eq!(scheduler.state(0), Some(TaskState::Running));
    assert_eq!(scheduler.state(1), Some(TaskState::Running));
    assert_eq!(scheduler.next(), Action::Wait);
    assert_eq!(scheduler.outcome(), Outcome::Unfinished);
    assert!(scheduler.finish(1, 0));
    assert!(scheduler.finish(0, 0));
    assert_eq!(scheduler.next(), Action::Finished);
    assert_eq!(scheduler.outcome(), Outcome::Success);
}

#[test]
fn failure_blocks_dependents_and_spares_the_rest() {
    let plan = Plan::new(&diamond(), &list(&["A", "E"]));
    let (a, b, c, d, e) = (
        place(&plan, "A"),
        place(&plan, "B"),
        place(&plan, "C"),
        place(&plan, "D"),
        place(&plan, "E"),
    );
    let mut scheduler = Scheduler::new(plan);
    let mut launched: Vec<usize> = Vec::new();
    let mut skipped: Vec<usize> = Vec::new();
    loop {
        match scheduler.next() {
            Action::Launch(task) => launched.push(task),
            Action::Skip(task) => skipped.push(task),
            Action::Wait => {
                let running: Vec<usize> = (0..scheduler.plan().len())
                    .filter(|&i| scheduler.state(i) == Some(TaskState::Running))
                    .collect();
                for task in running {
                    assert!(scheduler.finish(task, if task == d { 2 } else { 0 }));
                }
            }
            Action::Finished => break,
        }
    }
    launched.sort();
    let mut expected = vec![d, e];
    expected.sort();
    assert_eq!(launched, expected);
    skipped.sort();
    let mut blocked = vec![a, b, c];
    blocked.sort();
    assert_eq!(skipped, blocked);
    let failure = Failure { task: d, code: 2 };
    assert_eq!(scheduler.state(d), Some(TaskState::Failed(failure)));
    assert_eq!(scheduler.state(b), Some(TaskState::Failed(failure)));
    assert_eq!(scheduler.state(c), Some(TaskState::Failed(failure)));
    assert_eq!(scheduler.state(a), Some(TaskState::Failed(failure)));
    assert_eq!(scheduler.state(e), Some(TaskState::Succeeded));
    assert_eq!(scheduler.first_failure(), Some(failure));
    assert_eq!(scheduler.outcome(), Outcome::Failed(failure));
    assert_eq!(exit_code(scheduler.outcome()), 1);
}

#[test]
fn first_failure_is_the_one_reported_first() {
    let plan = Plan::new(&read("X:\nY:\n"), &list(&["X", "Y"]));
    let mut scheduler = Scheduler::new(plan);
    assert_eq!(scheduler.next(), Action::Launch(0));
    assert_eq!(scheduler.next(), Action::Launch(1));
    assert!(scheduler.finish(1, 7));
    assert!(scheduler.finish(0, 3));
    assert_eq!(scheduler.first_failure(), Some(Failure { task: 1, code: 7 }));
    assert_eq!(scheduler.state(0), Some(TaskState::Failed(Failure { task: 0, code: 3 })));
    assert_eq!(scheduler.outcome(), Outcome::Failed(Failure { task: 1, code: 7 }));
}

#[test]
fn dependent_waits_until_every_dependency_has_ended() {
    let plan = Plan::new(&read("A: B C\nB:\nC:\n"), &list(&["A"]));
    let mut scheduler = Scheduler::new(plan);
    assert_eq!(scheduler.next(), Action::Launch(1));
    assert_eq!(scheduler.next(), Action::Launch(2));
    assert!(scheduler.finish(2, 1));
    assert_eq!(scheduler.next(), Action::Wait);
    assert_eq!(scheduler.state(0), Some(TaskState::Pending));
    assert!(scheduler.finish(1, 0));
    assert_eq!(scheduler.next(), Action::Skip(0));
    assert_eq!(scheduler.state(0), Some(TaskState::Failed(Failure { task: 2, code: 1 })));
    assert_eq!(scheduler.next(), Action::Finished);
}

#[test]
fn failed_dependent_carries_first_failed_dependency() {
    let plan = Plan::new(&read("A: B C\nB:\nC:\n"), &list(&["A"]));
    let mut scheduler = Scheduler::new(plan);
    assert_eq!(scheduler.next(), Action::Launch(1));
    assert_eq!(scheduler.next(), Action::Launch(2));
    assert!(scheduler.finish(2, 9));
    assert!(scheduler.finish(1, 4));
    assert_eq!(scheduler.next(), Action::Skip(0));
    assert_eq!(scheduler.state(0), Some(TaskState::Failed(Failure { task: 1, code: 4 })));
    assert_eq!(scheduler.first_failure(), Some(Failure { task: 2, code: 9 }));
}

#[test]
fn finish_refuses_a_task_that_does_not_run() {
    let plan = Plan::new(&read("A: B\nB:\n"), &list(&["A"]));
    let mut scheduler = Scheduler::new(plan);
    assert!(!scheduler.finish(0, 0));
    assert!(!scheduler.finish(7, 0));
    assert_eq!(scheduler.state(0), Some(TaskState::Pending));
    assert_eq!(scheduler.state(7), None);
    assert_eq!(scheduler.next(), Action::Launch(1));
    assert!(scheduler.finish(1, 0));
    assert!(!scheduler.finish(1, 0));
    assert_eq!(scheduler.state(1), Some(TaskState::Succeeded));
}

#[test]
fn launch_failure_ends_the_run() {
    let plan = Plan::new(&read("X:\nY:\nZ: X\n"), &list(&["X", "Y", "Z"]));
    let mut scheduler = Scheduler::new(plan);
    assert!(!scheduler.launch_failed(0));
    assert_eq!(scheduler.next(), Action::Launch(0));
    assert!(scheduler.launch_failed(0));
    assert!(!scheduler.launch_failed(1));
    assert!(!scheduler.launch_failed(9));
    assert_eq!(scheduler.state(0), Some(TaskState::Running));
    assert_eq!(scheduler.state(1), Some(TaskState::Pending));
    assert_eq!(scheduler.next(), Action::Finished);
    assert_eq!(scheduler.next(), Action::Finished);
    assert_eq!(scheduler.state(1), Some(TaskState::Pending));
    assert_eq!(scheduler.outcome(), Outcome::LaunchFailed(0));
    assert_eq!(scheduler.first_failure(), None);
    assert_eq!(exit_code(scheduler.outcome()), 1);
}

#[test]
fn first_launch_failure_is_kept() {
    let plan = Plan::new(&read("X:\nY:\n"), &list(&["X", "Y"]));
    let mut scheduler = Scheduler::new(plan);
    assert_eq!(scheduler.next(), Action::Launch(0));
    assert_eq!(scheduler.next(), Action::Launch(1));
    assert!(scheduler.launch_failed(1));
    assert!(scheduler.launch_failed(0));
    assert!(scheduler.finish(0, 0));
    assert_eq!(scheduler.outcome(), Outcome::LaunchFailed(1));
}

#[test]
fn cycle_stalls() {
    let plan = Plan::new(&read("A: B\nB: A\n"), &list(&["A"]));
    let mut scheduler = Scheduler::new(plan);
    assert_eq!(scheduler.next(), Action::Finished);
    assert_eq!(scheduler.outcome(), Outcome::Stalled);
    assert_eq!(exit_code(Outcome::Stalled), 1);
    assert_eq!(exit_code(Outcome::Unfinished), 1);
}

#[test]
fn unknown_target_is_refused_before_anything_is_planned() {
    let graph = diamond();
    match resolve_targets(&graph, &list(&["A", "nope", "also-not"])) {
        Err(ResolveError::UnknownTarget(name)) => assert_eq!(name, "nope"),
        _ => panic!("the request names an unknown target"),
    }
}

#[test]
fn known_targets_are_taken_as_requested() {
    let graph = diamond();
    match resolve_targets(&graph, &list(&["C", "A", "C"])) {
        Ok(targets) => assert_eq!(targets, list(&["C", "A", "C"])),
        Err(_) => panic!("every requested target is declared"),
    }
}

#[test]
fn empty_request_takes_the_default_target() {
    match resolve_targets(&diamond(), &list(&[])) {
        Ok(targets) => assert_eq!(targets, list(&["A"])),
        Err(_) => panic!("the graph has a first target"),
    }
    match resolve_targets(&read("A:\nB:\n.DEFAULT_GOAL := B\n"), &list(&[])) {
        Ok(targets) => assert_eq!(targets, list(&["B"])),
        Err(_) => panic!("the graph has a default goal"),
    }
}

#[test]
fn empty_request_on_empty_graph_has_no_default() {
    assert!(matches!(
        resolve_targets(&read(""), &list(&[])),
        Err(ResolveError::NoDefaultTarget)
    ));
}

#[test]
fn prune_drops_dot_targets_and_the_build_file() {
    let graph = read(".PHONY: all\nall: main.o\nMakefile:\nmain.o: main.c\n.DEFAULT_GOAL := all\n");
    let pruned = prune(&graph, &Some("Makefile".to_string()));
    assert_eq!(pruned.targets(), list(&["all", "main.o"]));
    assert_eq!(pruned.dependencies("all"), list(&["main.o"]));
    assert_eq!(pruned.default_goal(), Some("all".to_string()));
    let kept = prune(&graph, &None);
    assert_eq!(kept.targets(), list(&["all", "Makefile", "main.o"]));
}

#[test]
fn keeps_tells_user_targets_apart() {
    assert!(keeps(&"all".to_string(), &None));
    assert!(!keeps(&".SUFFIXES".to_string(), &None));
    assert!(!keeps(&"build.mk".to_string(), &Some("build.mk".to_string())));
    assert!(keeps(&"build.mk".to_string(), &Some("other.mk".to_string())));
    assert!(keeps(&"".to_string(), &None));
}

#[test]
fn unknown_target_gives_no_scheduler() {
    match schedule(&diamond(), &list(&["A", "nope"])) {
        Err(ResolveError::UnknownTarget(name)) => assert_eq!(name, "nope"),
        _ => panic!("the request names an unknown target"),
    }
    assert!(matches!(
        schedule(&read(""), &list(&[])),
        Err(ResolveError::NoDefaultTarget)
    ));
}

#[test]
fn schedule_plans_the_default_target() {
    let mut scheduler = match schedule(&diamond(), &list(&[])) {
        Ok(scheduler) => scheduler,
        Err(_) => panic!("the graph has a first target"),
    };
    assert_eq!(scheduler.plan().len(), 4);
    assert_eq!(scheduler.plan().task(0).expect("a task").name, "A");
    assert_eq!(scheduler.state(0), Some(TaskState::Pending));
    assert_eq!(scheduler.outcome(), Outcome::Unfinished);
    assert_eq!(scheduler.next(), Action::Launch(2));
}

#[test]
fn read_database_reads_and_prunes() {
    let text = "# GNU Make\n.PHONY: all\nall: a.o\na.o: a.c\nbuild.mk:\n.SUFFIXES:\n".to_string();
    let graph = match read_database(&text, &Some("build.mk".to_string())) {
        Ok(graph) => graph,
        Err(_) => panic!("the text is a build file"),
    };
    assert_eq!(graph.targets(), list(&["all", "a.o"]));
    assert_eq!(
        read_database(&"a: b: c".to_string(), &None).err(),
        Some("Invalid Makefile".to_string())
    );
}

#[test]
fn graph_goes_through_its_entries_and_back() {
    let graph = read("A: B C\nB:\nC: B\n.DEFAULT_GOAL := C\n");
    let entries = graph.entries();
    assert_eq!(
        entries,
        vec![
            ("A".to_string(), list(&["B", "C"])),
            ("B".to_string(), list(&[])),
            ("C".to_string(), list(&["B"])),
        ]
    );
    let back = TargetGraph::from_entries(&entries, graph.default_goal());
    assert_eq!(back.entries(), entries);
    assert_eq!(back.default_goal(), Some("C".to_string()));
}

#[test]
fn from_entries_lets_the_last_declaration_win() {
    let entries = vec![
        ("A".to_string(), list(&["B"])),
        ("C".to_string(), list(&[])),
        ("A".to_string(), list(&["D"])),
    ];
    let graph = TargetGraph::from_entries(&entries, None);
    assert_eq!(graph.targets(), list(&["A", "C"]));
    assert_eq!(graph.dependencies("A"), list(&["D"]));
    assert_eq!(graph.default_goal(), None);
}
