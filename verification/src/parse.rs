//! The parser of build files.
//!
//! Each function reads the text from a place on and answers as the
//! function of the same part of the grammar does.

use crate::grammar::{
    blanks_end, comment_at, dependencies_at, dependency_at, document, document_from,
    first_stop, goal_at, goal_directive, header_at, ignored_at, lemma_name_end,
    lemma_separators_end, line_at, line_break_len, line_end, name_end, optional_comment_end,
    rule_at, separator_len, separators_end, stands_at, target_name_at, Line,
};
use crate::graph::{TargetGraph, TargetName};
use crate::name::{is_allowed_target_name_first_char, is_allowed_target_name_tail_char};
use crate::text::{chars_of, string_of};
use vstd::prelude::*;

verus! {

/// The end of the name characters from `i` on.
fn scan_name(chars: &Vec<char>, i: usize) -> (end: usize)
    requires
        i <= chars.len(),
    ensures
        end == name_end(chars@, i as int),
        i <= end <= chars.len(),
{
    let mut end: usize = i;
    while end < chars.len() && is_allowed_target_name_tail_char(chars[end])
        invariant
            i <= end <= chars.len(),
            name_end(chars@, i as int) == name_end(chars@, end as int),
        decreases chars.len() - end,
    {
        end += 1;
    }
    end
}

/// The end of the blanks from `i` on.
fn scan_blanks(chars: &Vec<char>, i: usize) -> (end: usize)
    requires
        i <= chars.len(),
    ensures
        end == blanks_end(chars@, i as int),
        i <= end <= chars.len(),
{
    let mut end: usize = i;
    while end < chars.len() && (chars[end] == ' ' || chars[end] == '\t')
        invariant
            i <= end <= chars.len(),
            blanks_end(chars@, i as int) == blanks_end(chars@, end as int),
        decreases chars.len() - end,
    {
        end += 1;
    }
    end
}

/// The end of the line that `i` lies in.
fn scan_line(chars: &Vec<char>, i: usize) -> (end: usize)
    requires
        i <= chars.len(),
    ensures
        end == line_end(chars@, i as int),
        i <= end <= chars.len(),
{
    let mut end: usize = i;
    while end < chars.len() && chars[end] != '\n'
        invariant
            i <= end <= chars.len(),
            line_end(chars@, i as int) == line_end(chars@, end as int),
        decreases chars.len() - end,
    {
        end += 1;
    }
    end
}

/// The length of the separator at `i`, 0 where none stands.
fn separator_at(chars: &Vec<char>, i: usize) -> (n: usize)
    requires
        i <= chars.len(),
    ensures
        n == separator_len(chars@, i as int),
        i + n <= chars.len(),
{
    let len = chars.len();
    if i < len && (chars[i] == ' ' || chars[i] == '\t' || chars[i] == '|') {
        1
    } else if i < len && len - i > 1 && chars[i] == '\\' && chars[i + 1] == '\n' {
        2
    } else if i < len && len - i > 2 && chars[i] == '\\' && chars[i + 1] == '\r' && chars[i + 2]
        == '\n' {
        3
    } else {
        0
    }
}

/// The end of the separators from `i` on.
fn scan_separators(chars: &Vec<char>, i: usize) -> (end: usize)
    requires
        i <= chars.len(),
    ensures
        end == separators_end(chars@, i as int),
        i <= end <= chars.len(),
{
    let mut end: usize = i;
    loop
        invariant
            i <= end <= chars.len(),
            separators_end(chars@, i as int) == separators_end(chars@, end as int),
        decreases chars.len() - end,
    {
        let n = separator_at(chars, end);
        if n == 0 {
            return end;
        }
        end += n;
    }
}

/// The length of the line break at `i`, 0 where none stands.
fn line_break_at(chars: &Vec<char>, i: usize) -> (n: usize)
    requires
        i <= chars.len(),
    ensures
        n == line_break_len(chars@, i as int),
        i + n <= chars.len(),
{
    let len = chars.len();
    if i < len && chars[i] == '\n' {
        1
    } else if i < len && len - i > 1 && chars[i] == '\r' && chars[i + 1] == '\n' {
        2
    } else {
        0
    }
}

/// Reads a comment at `i`: a `#` and the rest of the line.
pub fn parse_comment(chars: &Vec<char>, i: usize) -> (r: Option<usize>)
    ensures
        match r {
            Some(end) => comment_at(chars@, i as int) == Some(end as int) && i < end
                <= chars.len(),
            None => comment_at(chars@, i as int) is None,
        },
{
    if i < chars.len() && chars[i] == '#' {
        Some(scan_line(chars, i + 1))
    } else {
        None
    }
}

/// Reads a comment at `i` if one begins there.
pub fn parse_optional_comment(chars: &Vec<char>, i: usize) -> (end: usize)
    ensures
        end == optional_comment_end(chars@, i as int),
        i <= end,
        i <= chars.len() ==> end <= chars.len(),
{
    match parse_comment(chars, i) {
        Some(end) => end,
        None => i,
    }
}

/// Reads a name at `i`.
pub fn parse_target_name(chars: &Vec<char>, i: usize) -> (r: Option<(TargetName, usize)>)
    ensures
        match r {
            Some((name, end)) => target_name_at(chars@, i as int) == Some((name@, end as int))
                && i < end <= chars.len(),
            None => target_name_at(chars@, i as int) is None,
        },
{
    if i < chars.len() && is_allowed_target_name_first_char(chars[i]) && chars[i] != '#' {
        let end = scan_name(chars, i);
        proof {
            lemma_name_end(chars@, i as int);
        }
        Some((string_of(chars, i, end), end))
    } else {
        None
    }
}

/// Reads a dependency at `i`: separators, if any, and a name.
pub fn parse_dependency(chars: &Vec<char>, i: usize) -> (r: Option<(TargetName, usize)>)
    ensures
        match r {
            Some((name, end)) => dependency_at(chars@, i as int) == Some((name@, end as int))
                && i < end <= chars.len(),
            None => dependency_at(chars@, i as int) is None,
        },
{
    if i > chars.len() {
        proof {
            lemma_separators_end(chars@, i as int);
        }
        return None;
    }
    let start = scan_separators(chars, i);
    parse_target_name(chars, start)
}

/// Reads the head of a declaration at `i`: a name and a colon.
pub fn target_name_with_colon(chars: &Vec<char>, i: usize) -> (r: Option<(TargetName, usize)>)
    ensures
        match r {
            Some((name, end)) => header_at(chars@, i as int) == Some((name@, end as int)) && i
                < end <= chars.len(),
            None => header_at(chars@, i as int) is None,
        },
{
    match parse_target_name(chars, i) {
        Some((name, end)) => {
            if end < chars.len() && chars[end] == ':' {
                Some((name, end + 1))
            } else {
                None
            }
        },
        None => None,
    }
}

/// Reads the dependencies from `i` on, as many as there are.
pub fn parse_dependencies(chars: &Vec<char>, i: usize) -> (r: (Vec<TargetName>, usize))
    ensures
        r.0.deep_view() == dependencies_at(chars@, i as int).0,
        r.1 == dependencies_at(chars@, i as int).1,
        i <= r.1,
        i <= chars.len() ==> r.1 <= chars.len(),
{
    let ghost s = chars@;
    let mut deps: Vec<TargetName> = Vec::new();
    let mut at: usize = i;
    loop
        invariant
            s == chars@,
            i <= at,
            i <= chars.len() ==> at <= chars.len(),
            dependencies_at(s, i as int).0 == deps.deep_view() + dependencies_at(s, at as int).0,
            dependencies_at(s, i as int).1 == dependencies_at(s, at as int).1,
        decreases chars.len() - at,
    {
        match parse_dependency(chars, at) {
            Some((name, end)) => {
                proof {
                    assert(deps.deep_view().push(name@) + dependencies_at(s, end as int).0 =~= deps.deep_view()
                        + (seq![name@] + dependencies_at(s, end as int).0));
                }
                let ghost before = deps.deep_view();
                deps.push(name);
                assert(deps.deep_view() =~= before.push(name@));
                at = end;
            },
            None => {
                assert(deps.deep_view() + Seq::<Seq<char>>::empty() =~= deps.deep_view());
                return (deps, at);
            },
        }
    }
}

/// A line that the parser has read.
#[derive(Debug)]
pub enum ParsedLine {
    /// A target with its dependencies.
    Rule(TargetName, Vec<TargetName>),
    /// The default goal.
    Goal(TargetName),
    /// Nothing.
    Other,
}

impl View for ParsedLine {
    type V = Line;

    open spec fn view(&self) -> Line {
        match self {
            ParsedLine::Rule(name, deps) => Line::Rule(name@, deps.deep_view()),
            ParsedLine::Goal(name) => Line::Goal(name@),
            ParsedLine::Other => Line::Other,
        }
    }
}

/// Reads a target declaration at `i`.
pub fn parse_makefile_target(chars: &Vec<char>, i: usize) -> (r: Option<(ParsedLine, usize)>)
    ensures
        match r {
            Some((line, end)) => rule_at(chars@, i as int) == Some((line@, end as int)) && i < end
                <= chars.len(),
            None => rule_at(chars@, i as int) is None,
        },
{
    match target_name_with_colon(chars, i) {
        Some((name, after)) => {
            let (deps, at) = parse_dependencies(chars, after);
            let at = scan_blanks(chars, at);
            let end = parse_optional_comment(chars, at);
            Some((ParsedLine::Rule(name, deps), end))
        },
        None => None,
    }
}

/// Whether the directive that sets the default goal stands at `i`.
fn directive_at(chars: &Vec<char>, i: usize) -> (r: bool)
    ensures
        r == stands_at(chars@, i as int, goal_directive()),
        goal_directive().len() == 17,
        r ==> i + 17 <= chars.len(),
{
    let word = ".DEFAULT_GOAL := ";
    proof {
        reveal_strlit(".DEFAULT_GOAL := ");
    }
    if i > chars.len() || chars.len() - i < 17 {
        return false;
    }
    let mut k: usize = 0;
    while k < 17
        invariant
            k <= 17,
            word@ == goal_directive(),
            word@.len() == 17,
            i + 17 <= chars.len(),
            forall|j: int| 0 <= j < k ==> chars[i + j] == word@[j],
        decreases 17 - k,
    {
        if chars[i + k] != word.get_char(k) {
            assert(chars@.subrange(i as int, i + 17)[k as int] != word@[k as int]);
            return false;
        }
        k += 1;
    }
    assert(chars@.subrange(i as int, i + 17) =~= word@);
    true
}

/// Reads a default-goal directive at `i`: the directive's text, a name,
/// and then blanks and a comment, if any, up to the end of the line.
pub fn parse_default_goal(chars: &Vec<char>, i: usize) -> (r: Option<(ParsedLine, usize)>)
    ensures
        match r {
            Some((line, end)) => goal_at(chars@, i as int) == Some((line@, end as int)) && i < end
                <= chars.len(),
            None => goal_at(chars@, i as int) is None,
        },
{
    if directive_at(chars, i) {
        match parse_target_name(chars, i + 17) {
            Some((name, named)) => {
                let end = parse_optional_comment(chars, scan_blanks(chars, named));
                if end >= chars.len() || line_break_at(chars, end) > 0 {
                    Some((ParsedLine::Goal(name), end))
                } else {
                    None
                }
            },
            None => None,
        }
    } else {
        None
    }
}

/// Passes over the line at `i`, unless it has the head of a declaration.
pub fn parse_ignored_line(chars: &Vec<char>, i: usize) -> (r: Option<(ParsedLine, usize)>)
    ensures
        match r {
            Some((line, end)) => ignored_at(chars@, i as int) == Some((line@, end as int)) && i
                <= end && (i <= chars.len() ==> end <= chars.len()),
            None => ignored_at(chars@, i as int) is None,
        },
{
    match target_name_with_colon(chars, i) {
        Some(_) => None,
        None => {
            if i <= chars.len() {
                Some((ParsedLine::Other, scan_line(chars, i)))
            } else {
                Some((ParsedLine::Other, i))
            }
        },
    }
}

/// Reads the line at `i`: a declaration, or else a directive, or else a
/// line to pass over.
pub fn parse_line(chars: &Vec<char>, i: usize) -> (r: (ParsedLine, usize))
    ensures
        r.0@ == line_at(chars@, i as int).0,
        r.1 == line_at(chars@, i as int).1,
        i <= r.1,
        i <= chars.len() ==> r.1 <= chars.len(),
{
    if let Some(found) = parse_makefile_target(chars, i) {
        return found;
    }
    if let Some(found) = parse_default_goal(chars, i) {
        return found;
    }
    match parse_ignored_line(chars, i) {
        Some(found) => found,
        None => (ParsedLine::Other, i),
    }
}

/// Reads a whole build file, line by line. A text that is none gives the
/// place where reading stopped: the end of the first line after which
/// neither a line break nor the end of the text comes.
pub fn parse_makefile(chars: &Vec<char>) -> (r: Result<TargetGraph, usize>)
    ensures
        match r {
            Ok(graph) => document(chars@) == Some(graph@) && graph@.wf(),
            Err(at) => document(chars@) is None && at == first_stop(chars@, 0) && at
                < chars.len(),
        },
{
    let ghost s = chars@;
    let mut graph = TargetGraph::new();
    let mut at: usize = 0;
    loop
        invariant
            s == chars@,
            at <= chars.len(),
            graph@.wf(),
            document(s) == document_from(s, at as int, graph@),
            first_stop(s, 0) == first_stop(s, at as int),
        decreases chars.len() - at,
    {
        let (line, end) = parse_line(chars, at);
        match line {
            ParsedLine::Rule(name, deps) => graph.insert(name, deps),
            ParsedLine::Goal(name) => graph.set_default_goal(name),
            ParsedLine::Other => {},
        }
        if end >= chars.len() {
            return Ok(graph);
        }
        let n = line_break_at(chars, end);
        if n == 0 {
            return Err(end);
        }
        at = end + n;
    }
}

impl TargetGraph {
    /// Reads a build file; a text that is none gives the one error there is.
    pub fn try_from(value: &String) -> (r: Result<TargetGraph, String>)
        ensures
            match r {
                Ok(graph) => document(value@) == Some(graph@) && graph@.wf(),
                Err(message) => document(value@) is None && message@ == "Invalid Makefile"@,
            },
    {
        let chars = chars_of(value.as_str());
        match parse_makefile(&chars) {
            Ok(graph) => Ok(graph),
            Err(_) => Err("Invalid Makefile".to_owned()),
        }
    }
}

} // verus!
