//! The line grammar of build files, as functions on a text and a place in it.
//!
//! A text is a sequence of lines, separated by a line feed, with or without
//! a carriage return before it. Each line is one of three things:
//!
//! * a target declaration: a name, a colon, and dependency names, each of
//!   which may follow blanks, `|` marks and line continuations; blanks and
//!   a comment may end the line;
//! * a default-goal directive: `.DEFAULT_GOAL := ` and a name; blanks and
//!   a comment may end the line, and nothing else may;
//! * anything else, which is passed over up to the end of the line.
//!
//! A name is the longest run of name characters at its place. It does not
//! begin with `#`: there a comment begins. A text is a build file only if
//! every line ends at a line break or at the end of the text. Only a
//! declaration can fail to: a line that begins with a name and a colon is
//! read as one, whatever follows, and every other line is passed over where
//! it is no directive.

use crate::graph::GraphModel;
use crate::name::is_name_char;
use vstd::prelude::*;

verus! {

/// The end of the longest run of name characters that begins at `i`.
pub open spec fn name_end(s: Seq<char>, i: int) -> int
    decreases s.len() - i,
{
    if 0 <= i < s.len() && is_name_char(s[i]) {
        name_end(s, i + 1)
    } else {
        i
    }
}

/// A name begins at `i`: a name character other than `#` stands there.
pub open spec fn starts_name(s: Seq<char>, i: int) -> bool {
    0 <= i < s.len() && is_name_char(s[i]) && s[i] != '#'
}

/// The name at `i`, with the place where it ends.
pub open spec fn target_name_at(s: Seq<char>, i: int) -> Option<(Seq<char>, int)> {
    if starts_name(s, i) {
        Some((s.subrange(i, name_end(s, i)), name_end(s, i)))
    } else {
        None
    }
}

/// The length of the separator at `i`: a blank, a `|`, or a backslash
/// with the line break after it; 0 where none stands.
pub open spec fn separator_len(s: Seq<char>, i: int) -> int {
    if 0 <= i < s.len() && (s[i] == ' ' || s[i] == '\t' || s[i] == '|') {
        1
    } else if 0 <= i && i + 1 < s.len() && s[i] == '\\' && s[i + 1] == '\n' {
        2
    } else if 0 <= i && i + 2 < s.len() && s[i] == '\\' && s[i + 1] == '\r' && s[i + 2] == '\n' {
        3
    } else {
        0
    }
}

/// The end of the run of separators that begins at `i`.
pub open spec fn separators_end(s: Seq<char>, i: int) -> int
    decreases s.len() - i,
{
    if separator_len(s, i) > 0 {
        separators_end(s, i + separator_len(s, i))
    } else {
        i
    }
}

/// The dependency at `i`: separators, if any, and then a name.
pub open spec fn dependency_at(s: Seq<char>, i: int) -> Option<(Seq<char>, int)> {
    target_name_at(s, separators_end(s, i))
}

/// A name character stands at `i`, so the name there ends after `i`; and
/// no name ends beyond the text.
pub proof fn lemma_name_end(s: Seq<char>, i: int)
    ensures
        i <= name_end(s, i),
        0 <= i <= s.len() ==> name_end(s, i) <= s.len(),
        0 <= i < s.len() && is_name_char(s[i]) ==> i < name_end(s, i),
        forall|k: int| i <= k < name_end(s, i) ==> 0 <= k < s.len() && is_name_char(#[trigger] s[k]),
        0 <= name_end(s, i) < s.len() && 0 <= i ==> !is_name_char(s[name_end(s, i)]),
    decreases s.len() - i,
{
    if 0 <= i < s.len() && is_name_char(s[i]) {
        lemma_name_end(s, i + 1);
    }
}

/// A run of separators ends at or after its beginning, within the text,
/// and where no separator stands.
pub proof fn lemma_separators_end(s: Seq<char>, i: int)
    ensures
        i <= separators_end(s, i),
        0 <= i <= s.len() ==> separators_end(s, i) <= s.len(),
        separator_len(s, separators_end(s, i)) == 0,
    decreases s.len() - i,
{
    if separator_len(s, i) > 0 {
        lemma_separators_end(s, i + separator_len(s, i));
    }
}

/// The dependencies that begin at `i`, as many as there are, with the
/// place where the last one ends.
pub open spec fn dependencies_at(s: Seq<char>, i: int) -> (Seq<Seq<char>>, int)
    decreases s.len() - i,
    via dependencies_at_decreases
{
    match dependency_at(s, i) {
        Some((name, end)) => (
            seq![name] + dependencies_at(s, end).0,
            dependencies_at(s, end).1,
        ),
        None => (Seq::empty(), i),
    }
}

#[via_fn]
proof fn dependencies_at_decreases(s: Seq<char>, i: int) {
    lemma_separators_end(s, i);
    lemma_name_end(s, separators_end(s, i));
}

/// The end of the run of blanks that begins at `i`.
pub open spec fn blanks_end(s: Seq<char>, i: int) -> int
    decreases s.len() - i,
{
    if 0 <= i < s.len() && (s[i] == ' ' || s[i] == '\t') {
        blanks_end(s, i + 1)
    } else {
        i
    }
}

/// The place of the first line feed at or after `i`, or the end of the text.
pub open spec fn line_end(s: Seq<char>, i: int) -> int
    decreases s.len() - i,
{
    if 0 <= i < s.len() && s[i] != '\n' {
        line_end(s, i + 1)
    } else {
        i
    }
}

/// The end of the comment at `i`: from a `#` up to the end of the line.
pub open spec fn comment_at(s: Seq<char>, i: int) -> Option<int> {
    if 0 <= i < s.len() && s[i] == '#' {
        Some(line_end(s, i + 1))
    } else {
        None
    }
}

/// The end of the comment at `i`, or `i` where none begins.
pub open spec fn optional_comment_end(s: Seq<char>, i: int) -> int {
    match comment_at(s, i) {
        Some(end) => end,
        None => i,
    }
}

/// The head of a declaration at `i`: a name and a colon.
pub open spec fn header_at(s: Seq<char>, i: int) -> Option<(Seq<char>, int)> {
    match target_name_at(s, i) {
        Some((name, end)) => if end < s.len() && s[end] == ':' {
            Some((name, end + 1))
        } else {
            None
        },
        None => None,
    }
}

/// What a line says.
pub enum Line {
    /// A target with its dependencies.
    Rule(Seq<char>, Seq<Seq<char>>),
    /// The default goal.
    Goal(Seq<char>),
    /// Nothing.
    Other,
}

/// The declaration at `i`: a head, dependencies, and then blanks and a
/// comment, if any.
pub open spec fn rule_at(s: Seq<char>, i: int) -> Option<(Line, int)> {
    match header_at(s, i) {
        Some((name, after)) => Some(
            (
                Line::Rule(name, dependencies_at(s, after).0),
                optional_comment_end(s, blanks_end(s, dependencies_at(s, after).1)),
            ),
        ),
        None => None,
    }
}

/// The text that begins a default-goal directive.
pub open spec fn goal_directive() -> Seq<char> {
    ".DEFAULT_GOAL := "@
}

/// `word` stands in `s` at `i`.
pub open spec fn stands_at(s: Seq<char>, i: int, word: Seq<char>) -> bool {
    0 <= i && i + word.len() <= s.len() && s.subrange(i, i + word.len()) == word
}

/// A line can end at `i`: the text ends there, or a line break stands there.
pub open spec fn at_line_end(s: Seq<char>, i: int) -> bool {
    i >= s.len() || line_break_len(s, i) > 0
}

/// The default-goal directive at `i`: the directive's text, a name, and
/// then blanks and a comment, if any, up to the end of the line. A line
/// that goes on otherwise after the name is no directive.
pub open spec fn goal_at(s: Seq<char>, i: int) -> Option<(Line, int)> {
    if stands_at(s, i, goal_directive()) {
        match target_name_at(s, i + goal_directive().len()) {
            Some((name, end)) => if at_line_end(
                s,
                optional_comment_end(s, blanks_end(s, end)),
            ) {
                Some((Line::Goal(name), optional_comment_end(s, blanks_end(s, end))))
            } else {
                None
            },
            None => None,
        }
    } else {
        None
    }
}

/// A line that says nothing, at `i`: any line that has no head.
pub open spec fn ignored_at(s: Seq<char>, i: int) -> Option<(Line, int)> {
    if header_at(s, i) is Some {
        None
    } else {
        Some((Line::Other, line_end(s, i)))
    }
}

/// The line at `i`, with the place where it ends: a declaration, or else
/// a directive, or else a line that is passed over.
pub open spec fn line_at(s: Seq<char>, i: int) -> (Line, int) {
    if rule_at(s, i) is Some {
        rule_at(s, i)->0
    } else if goal_at(s, i) is Some {
        goal_at(s, i)->0
    } else {
        (Line::Other, line_end(s, i))
    }
}

/// The graph after a line is taken in.
pub open spec fn take_line(g: GraphModel, line: Line) -> GraphModel {
    match line {
        Line::Rule(name, deps) => g.declare(name, deps),
        Line::Goal(name) => g.with_goal(name),
        Line::Other => g,
    }
}

/// Where a directive stands among the declarations does not matter:
/// taking in a directive and a declaration gives the same graph in either
/// order, and its default goal is the one that the directive names.
pub proof fn lemma_goal_line_commutes(
    g: GraphModel,
    goal: Seq<char>,
    name: Seq<char>,
    deps: Seq<Seq<char>>,
)
    ensures
        take_line(take_line(g, Line::Goal(goal)), Line::Rule(name, deps)) == take_line(
            take_line(g, Line::Rule(name, deps)),
            Line::Goal(goal),
        ),
        take_line(take_line(g, Line::Goal(goal)), Line::Rule(name, deps)).default_goal == Some(
            goal,
        ),
        take_line(take_line(g, Line::Goal(goal)), Line::Other).default_goal == Some(goal),
{
}

/// A declaration replaces an earlier one of the same target: after both
/// lines the graph is the one that the second alone would have given.
pub proof fn lemma_later_line_wins(
    g: GraphModel,
    name: Seq<char>,
    first: Seq<Seq<char>>,
    second: Seq<Seq<char>>,
)
    requires
        g.wf(),
    ensures
        take_line(take_line(g, Line::Rule(name, first)), Line::Rule(name, second)) == take_line(
            g,
            Line::Rule(name, second),
        ),
        take_line(take_line(g, Line::Rule(name, first)), Line::Rule(name, second)).deps_of(name)
            == second,
{
    crate::graph::lemma_redeclare_replaces(g, name, first, second);
}

/// The length of the line break at `i`; 0 where none stands.
pub open spec fn line_break_len(s: Seq<char>, i: int) -> int {
    if 0 <= i < s.len() && s[i] == '\n' {
        1
    } else if 0 <= i && i + 1 < s.len() && s[i] == '\r' && s[i + 1] == '\n' {
        2
    } else {
        0
    }
}

/// The ends of blanks, lines and comments lie at or after their beginnings
/// and within the text.
pub proof fn lemma_ends(s: Seq<char>, i: int)
    ensures
        i <= blanks_end(s, i),
        i <= line_end(s, i),
        i <= optional_comment_end(s, i),
        0 <= i <= s.len() ==> blanks_end(s, i) <= s.len() && line_end(s, i) <= s.len()
            && optional_comment_end(s, i) <= s.len(),
    decreases s.len() - i,
{
    if 0 <= i < s.len() {
        lemma_ends(s, i + 1);
    }
}

/// A list of dependencies ends at or after its beginning and within the text.
pub proof fn lemma_dependencies_end(s: Seq<char>, i: int)
    ensures
        i <= dependencies_at(s, i).1,
        0 <= i <= s.len() ==> dependencies_at(s, i).1 <= s.len(),
    decreases s.len() - i,
{
    lemma_separators_end(s, i);
    lemma_name_end(s, separators_end(s, i));
    if dependency_at(s, i) is Some {
        lemma_dependencies_end(s, name_end(s, separators_end(s, i)));
    }
}

/// A line ends at or after its beginning and within the text.
pub proof fn lemma_line_end(s: Seq<char>, i: int)
    ensures
        i <= line_at(s, i).1,
        0 <= i <= s.len() ==> line_at(s, i).1 <= s.len(),
{
    lemma_ends(s, i);
    lemma_name_end(s, i);
    if rule_at(s, i) is Some {
        let after = name_end(s, i) + 1;
        lemma_dependencies_end(s, after);
        let d = dependencies_at(s, after).1;
        lemma_ends(s, d);
        lemma_ends(s, blanks_end(s, d));
    } else if goal_at(s, i) is Some {
        let named = name_end(s, i + goal_directive().len());
        lemma_name_end(s, i + goal_directive().len());
        lemma_ends(s, named);
        lemma_ends(s, blanks_end(s, named));
    }
}

/// Only a declaration can stop the reading: a line without the head of a
/// declaration ends at a line break or at the end of the text.
pub proof fn lemma_other_lines_pass(s: Seq<char>, i: int)
    requires
        0 <= i <= s.len(),
        header_at(s, i) is None,
    ensures
        at_line_end(s, line_at(s, i).1),
{
    lemma_line_feed_at_line_end(s, i);
}

/// A line feed stands where a line ends, unless the text ends there.
pub proof fn lemma_line_feed_at_line_end(s: Seq<char>, i: int)
    requires
        0 <= i <= s.len(),
    ensures
        i <= line_end(s, i) <= s.len(),
        line_end(s, i) < s.len() ==> s[line_end(s, i)] == '\n',
    decreases s.len() - i,
{
    if i < s.len() && s[i] != '\n' {
        lemma_line_feed_at_line_end(s, i + 1);
    }
}

/// The graph that the lines from `i` on give, taken in one after the
/// other on top of `g`; `None` where a line ends neither at a line break
/// nor at the end of the text.
pub open spec fn document_from(s: Seq<char>, i: int, g: GraphModel) -> Option<GraphModel>
    decreases s.len() - i,
    via document_from_decreases
{
    let (line, end) = line_at(s, i);
    if end >= s.len() {
        Some(take_line(g, line))
    } else if line_break_len(s, end) > 0 {
        document_from(s, end + line_break_len(s, end), take_line(g, line))
    } else {
        None
    }
}

#[via_fn]
proof fn document_from_decreases(s: Seq<char>, i: int, g: GraphModel) {
    lemma_line_end(s, i);
}

/// The place where reading from `i` on stops: the end of the first line
/// that ends neither at a line break nor at the end of the text, or the
/// end of the text where there is no such line.
pub open spec fn first_stop(s: Seq<char>, i: int) -> int
    decreases s.len() - i,
    via first_stop_decreases
{
    let end = line_at(s, i).1;
    if end >= s.len() {
        end
    } else if line_break_len(s, end) > 0 {
        first_stop(s, end + line_break_len(s, end))
    } else {
        end
    }
}

#[via_fn]
proof fn first_stop_decreases(s: Seq<char>, i: int) {
    lemma_line_end(s, i);
}

/// A text is no build file exactly where reading it stops before its end.
pub proof fn lemma_first_stop(s: Seq<char>, i: int, g: GraphModel)
    requires
        0 <= i <= s.len(),
    ensures
        i <= first_stop(s, i) <= s.len(),
        document_from(s, i, g) is None <==> first_stop(s, i) < s.len(),
    decreases s.len() - i,
{
    lemma_line_end(s, i);
    let end = line_at(s, i).1;
    if end < s.len() && line_break_len(s, end) > 0 {
        lemma_first_stop(s, end + line_break_len(s, end), take_line(g, line_at(s, i).0));
    }
}

/// Where reading stops before the end of the text, it stops at the end of
/// a declaration: a line that begins with a name and a colon and ends
/// neither at a line break nor at the end of the text.
pub proof fn lemma_only_a_declaration_stops(s: Seq<char>, i: int)
    requires
        0 <= i <= s.len(),
        first_stop(s, i) < s.len(),
    ensures
        exists|j: int|
            i <= j <= first_stop(s, i) && #[trigger] header_at(s, j) is Some && line_at(s, j).1
                == first_stop(s, i) && !at_line_end(s, first_stop(s, i)),
    decreases s.len() - i,
{
    lemma_line_end(s, i);
    let end = line_at(s, i).1;
    if end < s.len() && line_break_len(s, end) > 0 {
        let next = end + line_break_len(s, end);
        lemma_only_a_declaration_stops(s, next);
        let j = choose|j: int|
            next <= j <= first_stop(s, next) && #[trigger] header_at(s, j) is Some && line_at(
                s,
                j,
            ).1 == first_stop(s, next) && !at_line_end(s, first_stop(s, next));
        assert(i <= j <= first_stop(s, i) && header_at(s, j) is Some && line_at(s, j).1
            == first_stop(s, i));
    } else {
        if header_at(s, i) is None {
            lemma_other_lines_pass(s, i);
        }
        assert(header_at(s, i) is Some && line_at(s, i).1 == first_stop(s, i));
    }
}

/// The graph that a build file describes, or `None` where the text is not
/// a build file.
pub open spec fn document(s: Seq<char>) -> Option<GraphModel> {
    document_from(s, 0, GraphModel::empty())
}

} // verus!
