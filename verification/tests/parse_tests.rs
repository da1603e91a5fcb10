use mak::graph::TargetGraph;
use mak::name::{
    is_allowed_target_name_first_char, is_allowed_target_name_tail_char, is_makefile_whitespace,
};
use mak::parse::{
    parse_comment, parse_default_goal, parse_dependencies, parse_dependency, parse_ignored_line,
    parse_line, parse_makefile, parse_makefile_target, parse_optional_comment,
    parse_target_name, target_name_with_colon, ParsedLine,
};
use mak::text::chars_of;

fn read(text: &str) -> TargetGraph {
    TargetGraph::try_from(&text.to_string()).expect("the text is a build file")
}

fn list(names: &[&str]) -> Vec<String> {
    names.iter().map(|name| name.to_string()).collect()
}

#[test]
fn whitespace_is_space_or_tab() {
    assert!(is_makefile_whitespace(' '));
    assert!(is_makefile_whitespace('\t'));
    assert!(!is_makefile_whitespace('\n'));
    assert!(!is_makefile_whitespace('a'));
}

#[test]
fn name_characters_exclude_blanks_breaks_and_colon() {
    for c in [' ', '\t', '\n', '\r', ':'] {
        assert!(!is_allowed_target_name_first_char(c));
        assert!(!is_allowed_target_name_tail_char(c));
    }
    for c in ['a', 'Z', '0', '_', '-', '.', '/', '#', '\\', '|', 'é'] {
        assert!(is_allowed_target_name_first_char(c));
        assert!(is_allowed_target_name_tail_char(c));
    }
}

#[test]
fn three_declarations_give_three_entries() {
    let graph = read("A: B C\nB:\nC:\n");
    assert_eq!(graph.targets(), list(&["A", "B", "C"]));
    assert_eq!(graph.dependencies("A"), list(&["B", "C"]));
    assert_eq!(graph.dependencies("B"), list(&[]));
    assert_eq!(graph.dependencies("C"), list(&[]));
    assert_eq!(graph.default_goal(), None);
    assert_eq!(graph.len(), 3);
}

#[test]
fn comment_after_dependencies_is_no_dependency() {
    let graph = read("A: B C # not D: at all\nB:\n");
    assert_eq!(graph.targets(), list(&["A", "B"]));
    assert_eq!(graph.dependencies("A"), list(&["B", "C"]));
}

#[test]
fn comment_straight_after_colon_is_no_dependency() {
    let graph = read("A:#B\n");
    assert_eq!(graph.dependencies("A"), list(&[]));
    assert!(graph.contains("A"));
}

#[test]
fn trailing_blanks_are_no_dependency() {
    let graph = read("A: B C \t \nB:   \n");
    assert_eq!(graph.dependencies("A"), list(&["B", "C"]));
    assert_eq!(graph.dependencies("B"), list(&[]));
}

#[test]
fn hash_inside_a_name_belongs_to_it() {
    let graph = read("A: B#C\n");
    assert_eq!(graph.dependencies("A"), list(&["B#C"]));
}

#[test]
fn continuation_joins_lines() {
    let joined = read("A: B \\\n C\n");
    let plain = read("A: B C\n");
    assert_eq!(joined.targets(), plain.targets());
    assert_eq!(joined.dependencies("A"), plain.dependencies("A"));
    assert_eq!(joined.dependencies("A"), list(&["B", "C"]));
    assert_eq!(joined.default_goal(), plain.default_goal());
}

#[test]
fn any_run_between_dependencies_is_as_good_as_another() {
    let plain = read("X: Y\nA: B\t \tC # c\nD:\n.DEFAULT_GOAL := D\n");
    for run in [" \\\n ", " ", "\t", " | ", "\t\\\r\n\\\n|\t"] {
        let text = format!("X: Y\nA: B{}C # c\nD:\n.DEFAULT_GOAL := D\n", run);
        let graph = read(&text);
        assert_eq!(graph.entries(), plain.entries());
        assert_eq!(graph.default_goal(), plain.default_goal());
    }
    assert_eq!(plain.dependencies("A"), list(&["B", "C"]));
}

#[test]
fn continuation_with_carriage_return_joins_lines() {
    let graph = read("A: B \\\r\n\tC\r\nD:\r\n");
    assert_eq!(graph.targets(), list(&["A", "D"]));
    assert_eq!(graph.dependencies("A"), list(&["B", "C"]));
}

#[test]
fn backslash_after_a_name_belongs_to_it() {
    let graph = read("A: B\\\nC\n");
    assert_eq!(graph.targets(), list(&["A"]));
    assert_eq!(graph.dependencies("A"), list(&["B\\"]));
}

#[test]
fn order_only_mark_is_passed_over() {
    let graph = read("A: B | C\n");
    assert_eq!(graph.dependencies("A"), list(&["B", "C"]));
}

#[test]
fn default_goal_before_declarations() {
    let graph = read(".DEFAULT_GOAL := X\nA: B\nX:\n");
    assert_eq!(graph.default_goal(), Some("X".to_string()));
    assert_eq!(graph.default_target(), Some("X".to_string()));
    assert_eq!(graph.targets(), list(&["A", "X"]));
}

#[test]
fn default_goal_after_declarations() {
    let graph = read("A: B\nX:\n.DEFAULT_GOAL := X\n");
    assert_eq!(graph.default_goal(), Some("X".to_string()));
    assert_eq!(graph.default_target(), Some("X".to_string()));
    assert_eq!(graph.targets(), list(&["A", "X"]));
}

#[test]
fn last_default_goal_wins() {
    let graph = read(".DEFAULT_GOAL := X\n.DEFAULT_GOAL := Y\n");
    assert_eq!(graph.default_goal(), Some("Y".to_string()));
}

#[test]
fn first_target_is_default_without_a_goal() {
    let graph = read("# a comment\nfirst: second\nsecond:\n");
    assert_eq!(graph.default_goal(), None);
    assert_eq!(graph.default_target(), Some("first".to_string()));
}

#[test]
fn empty_text_has_no_default_target() {
    let graph = read("");
    assert_eq!(graph.len(), 0);
    assert_eq!(graph.default_target(), None);
}

#[test]
fn redeclaring_replaces_dependencies_and_keeps_place() {
    let graph = read("A: B\nC:\nA: D E\n");
    assert_eq!(graph.targets(), list(&["A", "C"]));
    assert_eq!(graph.dependencies("A"), list(&["D", "E"]));
    assert_eq!(graph.position("A"), Some(0));
    assert_eq!(graph.position("C"), Some(1));
}

#[test]
fn other_lines_are_passed_over() {
    let graph = read("CC = gcc\n\tgcc -o out: in\n\nall: out\n#note: text\n");
    assert_eq!(graph.targets(), list(&["all"]));
    assert_eq!(graph.dependencies("all"), list(&["out"]));
}

#[test]
fn names_may_be_paths() {
    let graph = read("build/a.o: src/a.c include/a.h\n");
    assert_eq!(graph.dependencies("build/a.o"), list(&["src/a.c", "include/a.h"]));
}

#[test]
fn text_without_final_line_break_is_read() {
    let graph = read("A: B");
    assert_eq!(graph.dependencies("A"), list(&["B"]));
}

#[test]
fn second_colon_is_an_error() {
    let r = TargetGraph::try_from(&"A: B: C\n".to_string());
    assert_eq!(r.err(), Some("Invalid Makefile".to_string()));
}

#[test]
fn lone_mark_at_line_end_is_an_error() {
    assert!(TargetGraph::try_from(&"A: B |\n".to_string()).is_err());
    assert!(TargetGraph::try_from(&"A: B \\\n\n".to_string()).is_err());
}

#[test]
fn blanks_and_comment_may_follow_the_default_goal() {
    assert_eq!(read(".DEFAULT_GOAL := all \n").default_goal(), Some("all".to_string()));
    assert_eq!(read(".DEFAULT_GOAL := all # note\nall:\n").default_goal(), Some("all".to_string()));
    assert_eq!(read(".DEFAULT_GOAL := all\t#\r\nall:\r\n").default_goal(), Some("all".to_string()));
    assert_eq!(read(".DEFAULT_GOAL := all").default_goal(), Some("all".to_string()));
    assert_eq!(read(".DEFAULT_GOAL := all#x\n").default_goal(), Some("all#x".to_string()));
}

#[test]
fn directive_line_that_goes_on_is_passed_over() {
    let graph = read("A:\n.DEFAULT_GOAL := all more\n.DEFAULT_GOAL := \n.DEFAULT_GOAL := x\ry\nB:\n");
    assert_eq!(graph.default_goal(), None);
    assert_eq!(graph.targets(), list(&["A", "B"]));
}

#[test]
fn only_a_declaration_can_be_an_error() {
    assert!(TargetGraph::try_from(&"no head here\n\t: odd\n = : x\n\r\n#c: d\n".to_string()).is_ok());
    assert!(TargetGraph::try_from(&"x: y\rz\n".to_string()).is_err());
}

#[test]
fn lone_carriage_return_is_an_error() {
    assert!(TargetGraph::try_from(&"A: B\rC\n".to_string()).is_err());
}

#[test]
fn parse_makefile_reads_characters() {
    let chars = chars_of("x: y\n");
    let graph = parse_makefile(&chars).expect("a build file");
    assert_eq!(graph.dependencies("x"), list(&["y"]));
    assert_eq!(parse_makefile(&chars_of("x: y: z")).err(), Some(4));
    assert_eq!(parse_makefile(&chars_of("a:\nb: c |\nd:\n")).err(), Some(8));
}

#[test]
fn chars_of_gives_each_character() {
    assert_eq!(chars_of("a:é\n"), vec!['a', ':', 'é', '\n']);
    assert_eq!(chars_of(""), Vec::<char>::new());
}

#[test]
fn comment_runs_to_line_end() {
    let chars = chars_of("# one\ntwo");
    assert_eq!(parse_comment(&chars, 0), Some(5));
    assert_eq!(parse_comment(&chars, 1), None);
    assert_eq!(parse_comment(&chars, 99), None);
    assert_eq!(parse_optional_comment(&chars, 0), 5);
    assert_eq!(parse_optional_comment(&chars, 6), 6);
}

#[test]
fn target_name_is_longest_run() {
    let chars = chars_of("ab.c/d: e");
    assert_eq!(parse_target_name(&chars, 0), Some(("ab.c/d".to_string(), 6)));
    assert_eq!(parse_target_name(&chars, 6), None);
    assert_eq!(parse_target_name(&chars, 7), None);
    assert_eq!(parse_target_name(&chars, 8), Some(("e".to_string(), 9)));
    assert_eq!(parse_target_name(&chars, 9), None);
    assert_eq!(parse_target_name(&chars_of("#x"), 0), None);
}

#[test]
fn dependency_follows_separators() {
    let chars = chars_of(" \t| \\\n dep rest");
    assert_eq!(parse_dependency(&chars, 0), Some(("dep".to_string(), 10)));
    assert_eq!(parse_dependency(&chars_of("  \n"), 0), None);
    assert_eq!(parse_dependency(&chars_of("  # x"), 0), None);
    assert_eq!(parse_dependency(&chars_of("x"), 5), None);
}

#[test]
fn dependencies_stop_before_trailing_blanks() {
    let chars = chars_of(" a b  \nnext");
    assert_eq!(parse_dependencies(&chars, 0), (list(&["a", "b"]), 4));
    assert_eq!(parse_dependencies(&chars, 6), (list(&[]), 6));
}

#[test]
fn head_is_name_and_colon() {
    assert_eq!(target_name_with_colon(&chars_of("all: x"), 0), Some(("all".to_string(), 4)));
    assert_eq!(target_name_with_colon(&chars_of("all : x"), 0), None);
    assert_eq!(target_name_with_colon(&chars_of("all"), 0), None);
}

#[test]
fn declaration_line_is_read_up_to_the_break() {
    let chars = chars_of("all: a b  # c\nnext:");
    match parse_makefile_target(&chars, 0) {
        Some((ParsedLine::Rule(name, deps), end)) => {
            assert_eq!(name, "all");
            assert_eq!(deps, list(&["a", "b"]));
            assert_eq!(end, 13);
        }
        _ => panic!("a declaration stands at 0"),
    }
    assert!(parse_makefile_target(&chars, 3).is_none());
    assert!(parse_ignored_line(&chars, 0).is_none());
}

#[test]
fn directive_line_is_read() {
    let chars = chars_of(".DEFAULT_GOAL := all\n");
    match parse_default_goal(&chars, 0) {
        Some((ParsedLine::Goal(name), end)) => {
            assert_eq!(name, "all");
            assert_eq!(end, 20);
        }
        _ => panic!("a directive stands at 0"),
    }
    match parse_default_goal(&chars_of(".DEFAULT_GOAL := all \t# c\nx"), 0) {
        Some((ParsedLine::Goal(name), end)) => {
            assert_eq!(name, "all");
            assert_eq!(end, 25);
        }
        _ => panic!("a directive stands at 0"),
    }
    assert!(parse_default_goal(&chars_of(".DEFAULT_GOAL := all x\n"), 0).is_none());
    assert!(parse_default_goal(&chars_of(".DEFAULT_GOAL := \n"), 0).is_none());
    assert!(parse_default_goal(&chars_of(".DEFAULT_GOAL = all\n"), 0).is_none());
    assert!(parse_default_goal(&chars, 1).is_none());
}

#[test]
fn ignored_line_runs_to_the_break() {
    let chars = chars_of("\techo hi: there\r\nx:");
    match parse_ignored_line(&chars, 0) {
        Some((ParsedLine::Other, end)) => assert_eq!(end, 16),
        _ => panic!("the line has no head"),
    }
    match parse_line(&chars, 0) {
        (ParsedLine::Other, end) => assert_eq!(end, 16),
        _ => panic!("the line has no head"),
    }
    match parse_line(&chars, 17) {
        (ParsedLine::Rule(name, deps), end) => {
            assert_eq!(name, "x");
            assert!(deps.is_empty());
            assert_eq!(end, 19);
        }
        _ => panic!("a declaration stands at 17"),
    }
}
