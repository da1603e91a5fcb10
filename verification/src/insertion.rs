//! What may be put into a build file without changing what it says.
//!
//! Every function of the grammar reads forward from its place, so what it
//! finds does not depend on what stands before; and a line that ends
//! with its line break does not depend on what comes after. On that rest
//! two facts: blanks and a comment at the end of a declaration or of a
//! directive change nothing, and between two dependencies one run of
//! separators, a line continuation among them, is as good as another.

use crate::grammar::{
    at_line_end, blanks_end, dependencies_at, dependency_at, document, document_from, goal_at,
    goal_directive, header_at, lemma_dependencies_end, lemma_ends, lemma_line_end,
    lemma_line_feed_at_line_end, lemma_name_end, lemma_separators_end, line_at, line_break_len, line_end, name_end,
    optional_comment_end, rule_at, separator_len, separators_end, stands_at, starts_name,
    take_line, target_name_at, Line,
};
use crate::graph::GraphModel;
use crate::name::is_name_char;
use vstd::prelude::*;

verus! {

/// A name with the place where it ends, moved `p` places to the left.
pub open spec fn shift_name(found: Option<(Seq<char>, int)>, p: int) -> Option<(Seq<char>, int)> {
    match found {
        Some((name, end)) => Some((name, end - p)),
        None => None,
    }
}

/// A line with the place where it ends, moved `p` places to the left.
pub open spec fn shift_line(found: Option<(Line, int)>, p: int) -> Option<(Line, int)> {
    match found {
        Some((line, end)) => Some((line, end - p)),
        None => None,
    }
}

/// The runs of name characters, of blanks and of separators, and the
/// lines, end in a text without its first `p` characters where they end
/// in the whole text, `p` places to the left.
pub proof fn lemma_skip_ends(s: Seq<char>, p: int, i: int)
    requires
        0 <= p <= i,
        p <= s.len(),
    ensures
        name_end(s.skip(p), i - p) == name_end(s, i) - p,
        blanks_end(s.skip(p), i - p) == blanks_end(s, i) - p,
        line_end(s.skip(p), i - p) == line_end(s, i) - p,
        separator_len(s.skip(p), i - p) == separator_len(s, i),
        separators_end(s.skip(p), i - p) == separators_end(s, i) - p,
        line_break_len(s.skip(p), i - p) == line_break_len(s, i),
    decreases s.len() - i,
{
    let t = s.skip(p);
    if i < s.len() {
        assert(t[i - p] == s[i]);
        lemma_skip_ends(s, p, i + 1);
        if i + 1 < s.len() {
            assert(t[i + 1 - p] == s[i + 1]);
            lemma_skip_ends(s, p, i + 2);
        }
        if i + 2 < s.len() {
            assert(t[i + 2 - p] == s[i + 2]);
            lemma_skip_ends(s, p, i + 3);
        }
    }
}

/// A name, a dependency, a comment and the head of a declaration are
/// found in a text without its first `p` characters as in the whole text,
/// `p` places to the left.
pub proof fn lemma_skip_tokens(s: Seq<char>, p: int, i: int)
    requires
        0 <= p <= i,
        p <= s.len(),
    ensures
        starts_name(s.skip(p), i - p) == starts_name(s, i),
        target_name_at(s.skip(p), i - p) == shift_name(target_name_at(s, i), p),
        dependency_at(s.skip(p), i - p) == shift_name(dependency_at(s, i), p),
        header_at(s.skip(p), i - p) == shift_name(header_at(s, i), p),
        optional_comment_end(s.skip(p), i - p) == optional_comment_end(s, i) - p,
        stands_at(s.skip(p), i - p, goal_directive()) == stands_at(s, i, goal_directive()),
{
    let t = s.skip(p);
    lemma_skip_ends(s, p, i);
    lemma_name_end(s, i);
    if i < s.len() {
        assert(t[i - p] == s[i]);
        lemma_skip_ends(s, p, i + 1);
    }
    if starts_name(s, i) {
        let e = name_end(s, i);
        assert(t.subrange(i - p, e - p) =~= s.subrange(i, e));
        if e < s.len() {
            assert(t[e - p] == s[e]);
        }
    }
    let j = separators_end(s, i);
    lemma_separators_end(s, i);
    lemma_name_end(s, j);
    if j < s.len() {
        assert(t[j - p] == s[j]);
    }
    lemma_skip_ends(s, p, j);
    if starts_name(s, j) {
        let e = name_end(s, j);
        assert(t.subrange(j - p, e - p) =~= s.subrange(j, e));
    }
    let word = goal_directive();
    if i + word.len() <= s.len() {
        assert(t.subrange(i - p, i - p + word.len()) =~= s.subrange(i, i + word.len()));
    }
}

/// The dependencies from `i` on are found in a text without its first
/// `p` characters as in the whole text, `p` places to the left.
pub proof fn lemma_skip_dependencies(s: Seq<char>, p: int, i: int)
    requires
        0 <= p <= i,
        p <= s.len(),
    ensures
        dependencies_at(s.skip(p), i - p).0 == dependencies_at(s, i).0,
        dependencies_at(s.skip(p), i - p).1 == dependencies_at(s, i).1 - p,
    decreases s.len() - i,
{
    lemma_skip_tokens(s, p, i);
    lemma_separators_end(s, i);
    lemma_name_end(s, separators_end(s, i));
    if dependency_at(s, i) is Some {
        lemma_skip_dependencies(s, p, name_end(s, separators_end(s, i)));
    }
}

/// The line at `i` is found in a text without its first `p` characters
/// as in the whole text, `p` places to the left.
pub proof fn lemma_skip_line(s: Seq<char>, p: int, i: int)
    requires
        0 <= p <= i <= s.len(),
    ensures
        line_at(s.skip(p), i - p).0 == line_at(s, i).0,
        line_at(s.skip(p), i - p).1 == line_at(s, i).1 - p,
{
    let t = s.skip(p);
    lemma_skip_tokens(s, p, i);
    lemma_skip_ends(s, p, i);
    lemma_name_end(s, i);
    if header_at(s, i) is Some {
        let after = name_end(s, i) + 1;
        lemma_skip_dependencies(s, p, after);
        lemma_dependencies_end(s, after);
        let d = dependencies_at(s, after).1;
        lemma_skip_ends(s, p, d);
        lemma_ends(s, d);
        lemma_skip_tokens(s, p, blanks_end(s, d));
    } else if stands_at(s, i, goal_directive()) {
        let from = i + goal_directive().len();
        lemma_skip_tokens(s, p, from);
        lemma_name_end(s, from);
        if target_name_at(s, from) is Some {
            let named = name_end(s, from);
            lemma_skip_ends(s, p, named);
            lemma_ends(s, named);
            let b = blanks_end(s, named);
            lemma_skip_tokens(s, p, b);
            lemma_ends(s, b);
            lemma_skip_ends(s, p, optional_comment_end(s, b));
        }
    }
}

/// What the lines from `i` on say does not depend on what stands before
/// `i`: it is what the text without its first `p` characters says from
/// `i - p` on.
pub proof fn lemma_skip_document(s: Seq<char>, p: int, i: int, g: GraphModel)
    requires
        0 <= p <= i <= s.len(),
    ensures
        document_from(s.skip(p), i - p, g) == document_from(s, i, g),
    decreases s.len() - i,
{
    lemma_skip_line(s, p, i);
    lemma_line_end(s, i);
    let end = line_at(s, i).1;
    lemma_skip_ends(s, p, end);
    if end < s.len() && line_break_len(s, end) > 0 {
        lemma_skip_document(s, p, end + line_break_len(s, end), take_line(g, line_at(s, i).0));
    }
}

/// Two texts that go on alike from a place in each say the same from
/// those places on.
pub proof fn lemma_same_rest(s: Seq<char>, i: int, t: Seq<char>, j: int, g: GraphModel)
    requires
        0 <= i <= s.len(),
        0 <= j <= t.len(),
        s.skip(i) == t.skip(j),
    ensures
        document_from(s, i, g) == document_from(t, j, g),
{
    lemma_skip_document(s, i, i, g);
    lemma_skip_document(t, j, j, g);
}


/// The two texts hold the same characters at every place before `n`.
pub open spec fn agree_before(s: Seq<char>, t: Seq<char>, n: int) -> bool {
    &&& 0 <= n <= s.len()
    &&& n <= t.len()
    &&& forall|x: int| 0 <= x < n ==> s[x] == t[x]
}

/// A blank: a space or a tab.
pub open spec fn is_blank_char(c: char) -> bool {
    c == ' ' || c == '\t'
}

/// A run of blanks holds blanks only and ends before a character that is none.
pub proof fn lemma_blanks_end(s: Seq<char>, i: int)
    ensures
        forall|x: int| i <= x < blanks_end(s, i) ==> 0 <= x < s.len() && is_blank_char(#[trigger] s[x]),
        0 <= i && blanks_end(s, i) < s.len() ==> !is_blank_char(s[blanks_end(s, i)]),
    decreases s.len() - i,
{
    lemma_ends(s, i);
    if 0 <= i < s.len() && (s[i] == ' ' || s[i] == '\t') {
        lemma_blanks_end(s, i + 1);
        assert(blanks_end(s, i) == blanks_end(s, i + 1));
        assert forall|x: int| i <= x < blanks_end(s, i) implies 0 <= x < s.len() && is_blank_char(
            #[trigger] s[x],
        ) by {
            if x > i {
                assert(i + 1 <= x < blanks_end(s, i + 1));
            }
        }
    }
}

/// Where name characters stand from `i` up to `e` and none stands at `e`,
/// the name at `i` ends at `e`.
pub proof fn lemma_name_end_is(s: Seq<char>, i: int, e: int)
    requires
        0 <= i <= e <= s.len(),
        forall|x: int| i <= x < e ==> is_name_char(#[trigger] s[x]),
        e == s.len() || !is_name_char(s[e]),
    ensures
        name_end(s, i) == e,
    decreases e - i,
{
    if i < e {
        lemma_name_end_is(s, i + 1, e);
    }
}

/// Where no line feed stands from `i` up to `e` and one stands at `e`, or
/// the text ends there, the line of `i` ends at `e`.
pub proof fn lemma_line_end_is(s: Seq<char>, i: int, e: int)
    requires
        0 <= i <= e <= s.len(),
        forall|x: int| i <= x < e ==> (#[trigger] s[x]) != '\n',
        e == s.len() || s[e] == '\n',
    ensures
        line_end(s, i) == e,
    decreases e - i,
{
    if i < e {
        lemma_line_end_is(s, i + 1, e);
    }
}

/// Blanks are passed over, as separators and as blanks.
pub proof fn lemma_through_blanks(s: Seq<char>, i: int, e: int)
    requires
        0 <= i <= e <= s.len(),
        forall|x: int| i <= x < e ==> is_blank_char(#[trigger] s[x]),
    ensures
        separators_end(s, i) == separators_end(s, e),
        blanks_end(s, i) == blanks_end(s, e),
    decreases e - i,
{
    if i < e {
        assert(is_blank_char(s[i]));
        lemma_through_blanks(s, i + 1, e);
    }
}

/// A name that ends before `n` ends at the same place in a text that is
/// the same before `n`.
pub proof fn lemma_agree_name_end(s: Seq<char>, t: Seq<char>, n: int, i: int)
    requires
        agree_before(s, t, n),
        0 <= i,
        name_end(s, i) < n,
    ensures
        name_end(t, i) == name_end(s, i),
    decreases s.len() - i,
{
    lemma_name_end(s, i);
    if i < s.len() && is_name_char(s[i]) {
        lemma_name_end(s, i + 1);
        lemma_agree_name_end(s, t, n, i + 1);
    }
}

/// A run of separators that ends before `n` ends at the same place in a
/// text that is the same before `n` and has no separator at that place.
pub proof fn lemma_agree_separators(s: Seq<char>, t: Seq<char>, n: int, i: int)
    requires
        agree_before(s, t, n),
        0 <= i,
        separators_end(s, i) < n,
        separator_len(t, separators_end(s, i)) == 0,
    ensures
        separators_end(t, i) == separators_end(s, i),
    decreases s.len() - i,
{
    lemma_separators_end(s, i);
    if separator_len(s, i) > 0 {
        let l = separator_len(s, i);
        lemma_separators_end(s, i + l);
        assert(s[i] == t[i]);
        if l >= 2 {
            assert(s[i + 1] == t[i + 1]);
        }
        if l >= 3 {
            assert(s[i + 2] == t[i + 2]);
        }
        lemma_agree_separators(s, t, n, i + l);
    }
}

/// What may end a declaration line after its dependencies: blanks, and
/// then nothing or a comment, with no line feed in it.
pub open spec fn is_line_tail(tail: Seq<char>) -> bool {
    &&& forall|x: int| 0 <= x < tail.len() ==> (#[trigger] tail[x]) != '\n'
    &&& (blanks_end(tail, 0) == tail.len() || tail[blanks_end(tail, 0)] == '#')
}

/// The text is empty or begins with a line break.
pub open spec fn at_line_break(rest: Seq<char>) -> bool {
    rest.len() == 0 || line_break_len(rest, 0) > 0
}

/// The dependencies that end where `head` ends are found alike where a
/// line tail follows `head`.
proof fn lemma_dependencies_with_tail(
    head: Seq<char>,
    tail: Seq<char>,
    rest: Seq<char>,
    q: int,
)
    requires
        is_line_tail(tail),
        at_line_break(rest),
        0 <= q <= head.len(),
        dependencies_at(head + rest, q).1 == head.len(),
        blanks_end(tail, 0) > 0 || dependencies_at(head + rest, q).0.len() == 0,
    ensures
        dependencies_at(head + tail + rest, q) == dependencies_at(head + rest, q),
    decreases head.len() - q,
{
    let s = head + rest;
    let t = head + tail + rest;
    let n = head.len() as int;
    let blanks = blanks_end(tail, 0);
    lemma_blanks_end(tail, 0);
    lemma_ends(tail, 0);
    assert(agree_before(s, t, n));
    let p = separators_end(s, q);
    lemma_separators_end(s, q);
    lemma_name_end(s, p);
    if dependency_at(s, q) is Some {
        let e = name_end(s, p);
        lemma_dependencies_end(s, e);
        assert(blanks > 0);
        assert(is_blank_char(tail[0]));
        assert(t[n] == tail[0]);
        assert(t[p] == s[p]);
        if p + 1 < n {
            assert(t[p + 1] == s[p + 1]);
        }
        if p + 2 < n {
            assert(t[p + 2] == s[p + 2]);
        }
        assert(separator_len(t, p) == 0);
        lemma_agree_separators(s, t, n, q);
        if e < n {
            lemma_agree_name_end(s, t, n, p);
        } else {
            assert forall|x: int| p <= x < n implies is_name_char(#[trigger] t[x]) by {
                assert(t[x] == s[x]);
            }
            lemma_name_end_is(t, p, n);
        }
        assert(t.subrange(p, e) =~= s.subrange(p, e));
        assert(dependency_at(t, q) == dependency_at(s, q));
        lemma_dependencies_with_tail(head, tail, rest, e);
    } else {
        assert(q == n);
        assert forall|x: int| n <= x < n + blanks implies is_blank_char(#[trigger] t[x]) by {
            assert(t[x] == tail[x - n]);
        }
        lemma_through_blanks(t, n, n + blanks);
        let stop = n + blanks;
        if blanks < tail.len() {
            assert(t[stop] == tail[blanks]);
        } else if rest.len() > 0 {
            assert(t[stop] == rest[0]);
            if rest.len() > 1 {
                assert(t[stop + 1] == rest[1]);
            }
        }
        assert(separator_len(t, stop) == 0);
        assert(!starts_name(t, stop));
        assert(dependency_at(t, q) is None);
    }
}

/// Where a line may end, a line tail leads to the end of the line, and
/// what follows the line is the same with the tail and without it.
proof fn lemma_tail_then_rest(head: Seq<char>, tail: Seq<char>, rest: Seq<char>, g: GraphModel)
    requires
        is_line_tail(tail),
        at_line_break(rest),
    ensures
        ({
            let s = head + rest;
            let t = head + tail + rest;
            let n = head.len() as int;
            let end = optional_comment_end(t, blanks_end(t, n));
            &&& optional_comment_end(s, blanks_end(s, n)) == n
            &&& at_line_end(s, n)
            &&& at_line_end(t, end)
            &&& n <= end <= t.len()
            &&& (n >= s.len() <==> end >= t.len())
            &&& n < s.len() ==> document_from(s, n + line_break_len(s, n), g) == document_from(
                t,
                end + line_break_len(t, end),
                g,
            )
        }),
{
    let s = head + rest;
    let t = head + tail + rest;
    let n = head.len() as int;
    let blanks = blanks_end(tail, 0);
    lemma_blanks_end(tail, 0);
    lemma_ends(tail, 0);
    if rest.len() > 0 {
        assert(s[n] == rest[0]);
    }
    assert(blanks_end(s, n) == n);
    assert(optional_comment_end(s, n) == n);
    assert forall|x: int| n <= x < n + blanks implies is_blank_char(#[trigger] t[x]) by {
        assert(t[x] == tail[x - n]);
    }
    lemma_through_blanks(t, n, n + blanks);
    let stop = n + blanks;
    let full = n + tail.len();
    if blanks < tail.len() {
        assert(t[stop] == tail[blanks]);
    } else if rest.len() > 0 {
        assert(t[stop] == rest[0]);
    }
    assert(blanks_end(t, n) == stop);
    if rest.len() == 0 {
        if blanks < tail.len() {
            assert forall|x: int| stop + 1 <= x < full implies (#[trigger] t[x]) != '\n' by {
                assert(t[x] == tail[x - n]);
            }
            lemma_line_end_is(t, stop + 1, full);
        }
    } else if rest[0] == '\n' {
        assert(t[full] == rest[0]);
        if blanks < tail.len() {
            assert forall|x: int| stop + 1 <= x < full implies (#[trigger] t[x]) != '\n' by {
                assert(t[x] == tail[x - n]);
            }
            lemma_line_end_is(t, stop + 1, full);
        }
        assert(s.skip(n + 1) =~= t.skip(full + 1));
        lemma_same_rest(s, n + 1, t, full + 1, g);
    } else {
        assert(rest[0] == '\r' && rest[1] == '\n');
        assert(t[full] == rest[0]);
        assert(t[full + 1] == rest[1]);
        assert(s[n + 1] == rest[1]);
        assert(s.skip(n + 2) =~= t.skip(full + 2));
        lemma_same_rest(s, n + 2, t, full + 2, g);
        if blanks < tail.len() {
            assert forall|x: int| stop + 1 <= x < full + 1 implies (#[trigger] t[x]) != '\n' by {
                if x < full {
                    assert(t[x] == tail[x - n]);
                }
            }
            lemma_line_end_is(t, stop + 1, full + 1);
        }
    }
}

/// A line that begins with the directive's text has no head of a declaration.
pub proof fn lemma_directive_has_no_head(s: Seq<char>, i: int)
    requires
        stands_at(s, i, goal_directive()),
    ensures
        goal_directive().len() == 17,
        header_at(s, i) is None,
{
    reveal_strlit(".DEFAULT_GOAL := ");
    let word = goal_directive();
    assert forall|k: int| 0 <= k < 17 implies s[i + k] == #[trigger] word[k] by {
        assert(s.subrange(i, i + 17)[k] == s[i + k]);
    }
    assert forall|x: int| i <= x < i + 13 implies is_name_char(#[trigger] s[x]) by {
        assert(s[i + (x - i)] == word[x - i]);
    }
    assert(s[i + 13] == word[13]);
    lemma_name_end_is(s, i, i + 13);
}

/// The declaration at `i` has its dependencies end where `head` ends, and
/// the tail begins with a blank unless no dependency is declared.
pub open spec fn ends_declaration(head: Seq<char>, tail: Seq<char>, rest: Seq<char>, i: int) -> bool {
    &&& header_at(head + rest, i) is Some
    &&& dependencies_at(head + rest, name_end(head + rest, i) + 1).1 == head.len()
    &&& (blanks_end(tail, 0) > 0 || dependencies_at(
        head + rest,
        name_end(head + rest, i) + 1,
    ).0.len() == 0)
}

/// The directive at `i` has its name end where `head` ends, and the tail
/// begins with a blank.
pub open spec fn ends_directive(head: Seq<char>, tail: Seq<char>, rest: Seq<char>, i: int) -> bool {
    &&& stands_at(head + rest, i, goal_directive())
    &&& target_name_at(head + rest, i + goal_directive().len()) is Some
    &&& name_end(head + rest, i + goal_directive().len()) == head.len()
    &&& blanks_end(tail, 0) > 0
}

/// The tail after the dependencies of a declaration changes nothing.
proof fn lemma_declaration_tail(
    head: Seq<char>,
    tail: Seq<char>,
    rest: Seq<char>,
    i: int,
    g: GraphModel,
)
    requires
        is_line_tail(tail),
        at_line_break(rest),
        0 <= i,
        ends_declaration(head, tail, rest, i),
    ensures
        line_at(head + tail + rest, i).0 == line_at(head + rest, i).0,
        document_from(head + tail + rest, i, g) == document_from(head + rest, i, g),
{
    let s = head + rest;
    let t = head + tail + rest;
    let n = head.len() as int;
    assert(agree_before(s, t, n));
    let colon = name_end(s, i);
    let after = colon + 1;
    lemma_name_end(s, i);
    lemma_dependencies_end(s, after);
    lemma_agree_name_end(s, t, n, i);
    assert(t[i] == s[i]);
    assert(t[colon] == s[colon]);
    assert(t.subrange(i, colon) =~= s.subrange(i, colon));
    assert(header_at(t, i) == header_at(s, i));
    lemma_dependencies_with_tail(head, tail, rest, after);
    lemma_tail_then_rest(head, tail, rest, take_line(g, line_at(s, i).0));
    assert(line_at(s, i).1 == n);
}

/// The tail after the name of a directive changes nothing.
proof fn lemma_directive_tail(
    head: Seq<char>,
    tail: Seq<char>,
    rest: Seq<char>,
    i: int,
    g: GraphModel,
)
    requires
        is_line_tail(tail),
        at_line_break(rest),
        0 <= i,
        ends_directive(head, tail, rest, i),
    ensures
        line_at(head + tail + rest, i).0 == line_at(head + rest, i).0,
        document_from(head + tail + rest, i, g) == document_from(head + rest, i, g),
{
    let s = head + rest;
    let t = head + tail + rest;
    let n = head.len() as int;
    let word = goal_directive();
    let from = i + word.len();
    lemma_blanks_end(tail, 0);
    assert(agree_before(s, t, n));
    lemma_name_end(s, from);
    assert(t.subrange(i, i + word.len()) =~= s.subrange(i, i + word.len()));
    assert(stands_at(t, i, word));
    lemma_directive_has_no_head(s, i);
    lemma_directive_has_no_head(t, i);
    assert(t[from] == s[from]);
    assert(is_blank_char(tail[0]));
    assert(t[n] == tail[0]);
    assert forall|x: int| from <= x < n implies is_name_char(#[trigger] t[x]) by {
        assert(t[x] == s[x]);
    }
    lemma_name_end_is(t, from, n);
    assert(t.subrange(from, n) =~= s.subrange(from, n));
    let line = Line::Goal(s.subrange(from, n));
    lemma_tail_then_rest(head, tail, rest, take_line(g, line));
    assert(goal_at(s, i) == Some((line, n)));
    assert(goal_at(t, i) == Some((line, optional_comment_end(t, blanks_end(t, n)))));
}

/// Blanks and a comment at the end of a line are no part of a name: a
/// build file says the same with them and without them. The line at `i`
/// is a declaration whose dependencies end where `head` ends, or a
/// directive whose name ends there; the tail begins with a blank, or no
/// dependency is declared.
pub proof fn lemma_line_tail_changes_nothing(
    head: Seq<char>,
    tail: Seq<char>,
    rest: Seq<char>,
    i: int,
    g: GraphModel,
)
    requires
        is_line_tail(tail),
        at_line_break(rest),
        0 <= i,
        ends_declaration(head, tail, rest, i) || ends_directive(head, tail, rest, i),
    ensures
        line_at(head + tail + rest, i).0 == line_at(head + rest, i).0,
        document_from(head + tail + rest, i, g) == document_from(head + rest, i, g),
{
    if ends_declaration(head, tail, rest, i) {
        lemma_declaration_tail(head, tail, rest, i, g);
    } else {
        lemma_directive_tail(head, tail, rest, i, g);
    }
}

/// Separators and nothing else: blanks, `|` marks and line continuations.
pub open spec fn is_separator_run(run: Seq<char>) -> bool {
    separators_end(run, 0) == run.len()
}

/// A run of separators that stands in a text at `n` is passed over there.
proof fn lemma_through_run(t: Seq<char>, n: int, run: Seq<char>, x: int)
    requires
        0 <= n,
        n + run.len() <= t.len(),
        forall|y: int| 0 <= y < run.len() ==> t[n + y] == #[trigger] run[y],
        0 <= x <= run.len(),
        separators_end(run, x) == run.len(),
    ensures
        separators_end(t, n + x) == separators_end(t, n + run.len()),
    decreases run.len() - x,
{
    if x < run.len() {
        let l = separator_len(run, x);
        assert(t[n + x] == run[x]);
        if l >= 2 {
            assert(t[n + (x + 1)] == run[x + 1]);
        }
        if l >= 3 {
            assert(t[n + (x + 2)] == run[x + 2]);
        }
        assert(separator_len(t, n + x) == l);
        lemma_through_run(t, n, run, x + l);
    }
}

/// Each separator alone is a run: a space, a tab, a `|` mark, and a
/// backslash with the line break after it.
pub proof fn lemma_separators_are_runs()
    ensures
        is_separator_run(seq![' ']),
        is_separator_run(seq!['\t']),
        is_separator_run(seq!['|']),
        is_separator_run(seq!['\\', '\n']),
        is_separator_run(seq!['\\', '\r', '\n']),
{
    assert(separators_end(seq![' '], 1) == 1);
    assert(separators_end(seq!['\t'], 1) == 1);
    assert(separators_end(seq!['|'], 1) == 1);
    assert(separators_end(seq!['\\', '\n'], 2) == 2);
    assert(separators_end(seq!['\\', '\r', '\n'], 3) == 3);
}

/// Two runs of separators, one after the other, are a run.
pub proof fn lemma_runs_join(one: Seq<char>, other: Seq<char>)
    requires
        is_separator_run(one),
        is_separator_run(other),
    ensures
        is_separator_run(one + other),
{
    let t = one + other;
    let n = one.len() as int;
    assert forall|y: int| 0 <= y < one.len() implies t[0 + y] == #[trigger] one[y] by {}
    lemma_through_run(t, 0, one, 0);
    assert(t.skip(n) =~= other);
    lemma_skip_ends(t, n, n);
}

/// The dependencies of `head` alone, which end where it ends, are found
/// first where more text follows it, and the list goes on from there. What
/// follows begins with a blank, unless no dependency of `head` is left.
proof fn lemma_dependencies_then(head: Seq<char>, more: Seq<char>, q: int)
    requires
        0 <= q <= head.len(),
        dependencies_at(head, q).1 == head.len(),
        q == head.len() || (more.len() > 0 && is_blank_char(more[0])),
    ensures
        dependencies_at(head + more, q).0 == dependencies_at(head, q).0 + dependencies_at(
            head + more,
            head.len() as int,
        ).0,
        dependencies_at(head + more, q).1 == dependencies_at(head + more, head.len() as int).1,
    decreases head.len() - q,
{
    let s = head;
    let t = head + more;
    let n = head.len() as int;
    assert(agree_before(s, t, n));
    let p = separators_end(s, q);
    lemma_separators_end(s, q);
    lemma_name_end(s, p);
    if dependency_at(s, q) is Some {
        let e = name_end(s, p);
        lemma_dependencies_end(s, e);
        assert(t[n] == more[0]);
        assert(t[p] == s[p]);
        if p + 1 < n {
            assert(t[p + 1] == s[p + 1]);
        }
        if p + 2 < n {
            assert(t[p + 2] == s[p + 2]);
        }
        assert(separator_len(t, p) == 0);
        lemma_agree_separators(s, t, n, q);
        if e < n {
            lemma_agree_name_end(s, t, n, p);
        } else {
            assert forall|x: int| p <= x < n implies is_name_char(#[trigger] t[x]) by {
                assert(t[x] == s[x]);
            }
            lemma_name_end_is(t, p, n);
        }
        assert(t.subrange(p, e) =~= s.subrange(p, e));
        assert(dependency_at(t, q) == dependency_at(s, q));
        lemma_dependencies_then(head, more, e);
        let name = s.subrange(p, e);
        assert(seq![name] + (dependencies_at(s, e).0 + dependencies_at(t, n).0) =~= (seq![name]
            + dependencies_at(s, e).0) + dependencies_at(t, n).0);
    } else {
        assert(q == n);
        assert(Seq::<Seq<char>>::empty() + dependencies_at(t, n).0 =~= dependencies_at(t, n).0);
    }
}

/// The dependencies of `head`, a run of separators, and the dependencies
/// that begin `rest` are one list, whatever the run is.
proof fn lemma_list_with_run(head: Seq<char>, run: Seq<char>, rest: Seq<char>, after: int)
    requires
        is_separator_run(run),
        0 <= after <= head.len(),
        dependencies_at(head, after).1 == head.len(),
        head.len() == after || (run.len() > 0 && is_blank_char(run[0])),
        starts_name(rest, 0),
        separator_len(rest, 0) == 0,
    ensures
        dependencies_at(head + run + rest, after).0 == dependencies_at(head, after).0
            + dependencies_at(rest, 0).0,
        dependencies_at(head + run + rest, after).1 == head.len() + run.len() + dependencies_at(
            rest,
            0,
        ).1,
{
    let t = head + run + rest;
    let more = run + rest;
    let n = head.len() as int;
    let off = n + run.len();
    assert(t =~= head + more);
    if run.len() > 0 {
        assert(more[0] == run[0]);
    }
    lemma_dependencies_then(head, more, after);
    assert forall|y: int| 0 <= y < run.len() implies t[n + y] == #[trigger] run[y] by {}
    lemma_through_run(t, n, run, 0);
    assert(t.skip(off) =~= rest);
    lemma_skip_ends(t, off, off);
    lemma_skip_tokens(t, off, off);
    lemma_name_end(rest, 0);
    let named = name_end(rest, 0);
    assert(separators_end(rest, 0) == 0);
    assert(separators_end(t, n) == off);
    assert(dependency_at(t, n) == Some((rest.subrange(0, named), off + named)));
    assert(dependency_at(rest, 0) == Some((rest.subrange(0, named), named)));
    lemma_skip_dependencies(t, off, off + named);
}

/// The end of a line whose dependencies end at `d` in `rest`, where
/// `rest` is what stands in `t` from `off` on.
proof fn lemma_line_end_in_rest(t: Seq<char>, off: int, rest: Seq<char>, d: int)
    requires
        0 <= off <= t.len(),
        t.skip(off) == rest,
        0 <= d <= rest.len(),
    ensures
        optional_comment_end(t, blanks_end(t, off + d)) == off + optional_comment_end(
            rest,
            blanks_end(rest, d),
        ),
        optional_comment_end(rest, blanks_end(rest, d)) <= rest.len(),
        d <= optional_comment_end(rest, blanks_end(rest, d)),
{
    lemma_skip_ends(t, off, off + d);
    lemma_ends(rest, d);
    let b = blanks_end(rest, d);
    lemma_skip_tokens(t, off, off + b);
    lemma_ends(rest, b);
}

/// What a declaration says whose dependencies are those of `head`, a run
/// of separators, and those that begin `rest`: the line and what follows
/// it are found from `head` and `rest` alone, whatever the run is.
proof fn lemma_run_between(head: Seq<char>, run: Seq<char>, rest: Seq<char>, i: int, g: GraphModel)
    requires
        0 <= i,
        is_separator_run(run),
        header_at(head, i) is Some,
        dependencies_at(head, name_end(head, i) + 1).1 == head.len(),
        head.len() == name_end(head, i) + 1 || (run.len() > 0 && is_blank_char(run[0])),
        starts_name(rest, 0),
        separator_len(rest, 0) == 0,
    ensures
        ({
            let t = head + run + rest;
            let after = name_end(head, i) + 1;
            let line = Line::Rule(
                head.subrange(i, name_end(head, i)),
                dependencies_at(head, after).0 + dependencies_at(rest, 0).0,
            );
            let end = optional_comment_end(rest, blanks_end(rest, dependencies_at(rest, 0).1));
            &&& line_at(t, i).0 == line
            &&& document_from(t, i, g) == if end >= rest.len() {
                Some(take_line(g, line))
            } else if line_break_len(rest, end) > 0 {
                document_from(rest, end + line_break_len(rest, end), take_line(g, line))
            } else {
                None
            }
        }),
{
    let t = head + run + rest;
    let n = head.len() as int;
    let off = n + run.len();
    let colon = name_end(head, i);
    let after = colon + 1;
    assert(header_at(t, i) == header_at(head, i)) by {
        assert(agree_before(head, t, n));
        lemma_name_end(head, i);
        lemma_agree_name_end(head, t, n, i);
        assert(t[i] == head[i]);
        assert(t[colon] == head[colon]);
        assert(t.subrange(i, colon) =~= head.subrange(i, colon));
    }
    lemma_name_end(head, i);
    lemma_list_with_run(head, run, rest, after);
    assert(t.skip(off) =~= rest);
    let d = dependencies_at(rest, 0).1;
    lemma_dependencies_end(rest, 0);
    lemma_line_end_in_rest(t, off, rest, d);
    let end = optional_comment_end(rest, blanks_end(rest, d));
    let line = Line::Rule(
        head.subrange(i, colon),
        dependencies_at(head, after).0 + dependencies_at(rest, 0).0,
    );
    assert(rule_at(t, i) == Some((line, off + end)));
    assert(line_at(t, i) == (line, off + end));
    lemma_skip_ends(t, off, off + end);
    let next = take_line(g, line);
    if end < rest.len() && line_break_len(rest, end) > 0 {
        let l = line_break_len(rest, end);
        lemma_skip_document(t, off, off + end + l, next);
    }
}

/// A line continuation between two dependencies joins the lines, and so
/// does any other run of separators: a build file says the same with the
/// one run between two dependencies of a declaration and with the other.
/// The declaration begins at `i`; `head` ends with a dependency, or with
/// the colon, and a dependency begins `rest`. A run that follows a
/// dependency begins with a blank.
pub proof fn lemma_separator_runs_alike(
    head: Seq<char>,
    one: Seq<char>,
    other: Seq<char>,
    rest: Seq<char>,
    i: int,
    g: GraphModel,
)
    requires
        0 <= i,
        is_separator_run(one),
        is_separator_run(other),
        header_at(head, i) is Some,
        dependencies_at(head, name_end(head, i) + 1).1 == head.len(),
        head.len() == name_end(head, i) + 1 || (one.len() > 0 && is_blank_char(one[0])
            && other.len() > 0 && is_blank_char(other[0])),
        starts_name(rest, 0),
        separator_len(rest, 0) == 0,
    ensures
        line_at(head + one + rest, i).0 == line_at(head + other + rest, i).0,
        document_from(head + one + rest, i, g) == document_from(head + other + rest, i, g),
{
    lemma_run_between(head, one, rest, i, g);
    lemma_run_between(head, other, rest, i, g);
}


/// A run of blanks that ends before `n` ends at the same place in a text
/// that is the same before `n`.
pub proof fn lemma_agree_blanks_end(s: Seq<char>, t: Seq<char>, n: int, i: int)
    requires
        agree_before(s, t, n),
        0 <= i,
        blanks_end(s, i) < n,
    ensures
        blanks_end(t, i) == blanks_end(s, i),
    decreases s.len() - i,
{
    lemma_ends(s, i);
    if i < s.len() && (s[i] == ' ' || s[i] == '\t') {
        lemma_ends(s, i + 1);
        lemma_agree_blanks_end(s, t, n, i + 1);
    }
}

/// A line that ends before `n` ends at the same place in a text that is
/// the same before `n`.
pub proof fn lemma_agree_line_end(s: Seq<char>, t: Seq<char>, n: int, i: int)
    requires
        agree_before(s, t, n),
        0 <= i,
        line_end(s, i) < n,
    ensures
        line_end(t, i) == line_end(s, i),
    decreases s.len() - i,
{
    lemma_ends(s, i);
    if i < s.len() && s[i] != '\n' {
        lemma_ends(s, i + 1);
        lemma_agree_line_end(s, t, n, i + 1);
    }
}

/// The characters of the directive's text: name characters, blanks and a
/// colon, and so no line break.
pub proof fn lemma_directive_chars()
    ensures
        goal_directive().len() == 17,
        forall|k: int|
            0 <= k < 17 ==> (#[trigger] goal_directive()[k]) != '\n' && goal_directive()[k]
                != '\r',
{
    reveal_strlit(".DEFAULT_GOAL := ");
    let word = goal_directive();
    assert(word[0] == '.' && word[1] == 'D' && word[2] == 'E' && word[3] == 'F');
    assert(word[4] == 'A' && word[5] == 'U' && word[6] == 'L' && word[7] == 'T');
    assert(word[8] == '_' && word[9] == 'G' && word[10] == 'O' && word[11] == 'A');
    assert(word[12] == 'L' && word[13] == ' ' && word[14] == ':' && word[15] == '=');
    assert(word[16] == ' ');
}

/// The dependencies of a line that ends, with its line break, before `n`
/// are found alike in a text that is the same before `n`.
proof fn lemma_agree_dependencies(s: Seq<char>, t: Seq<char>, n: int, q: int)
    requires
        agree_before(s, t, n),
        0 <= q <= s.len(),
        line_break_len(
            s,
            optional_comment_end(s, blanks_end(s, dependencies_at(s, q).1)),
        ) > 0,
        optional_comment_end(s, blanks_end(s, dependencies_at(s, q).1)) + line_break_len(
            s,
            optional_comment_end(s, blanks_end(s, dependencies_at(s, q).1)),
        ) <= n,
    ensures
        dependencies_at(t, q) == dependencies_at(s, q),
    decreases s.len() - q,
{
    let d = dependencies_at(s, q).1;
    let b = blanks_end(s, d);
    let end = optional_comment_end(s, b);
    lemma_dependencies_end(s, q);
    lemma_ends(s, d);
    lemma_ends(s, b);
    lemma_blanks_end(s, d);
    let p = separators_end(s, q);
    lemma_separators_end(s, q);
    lemma_name_end(s, p);
    if dependency_at(s, q) is Some {
        let e = name_end(s, p);
        lemma_dependencies_end(s, e);
        assert(p < e <= d <= b <= end < n);
        assert(t[p] == s[p]);
        assert(t[p + 1] == s[p + 1]);
        if p + 2 < n {
            assert(t[p + 2] == s[p + 2]);
        } else {
            assert(e == p + 1 && d == e && b == e && end == e);
        }
        assert(separator_len(t, p) == 0);
        lemma_agree_separators(s, t, n, q);
        lemma_agree_name_end(s, t, n, p);
        assert(t.subrange(p, e) =~= s.subrange(p, e));
        assert(dependency_at(t, q) == dependency_at(s, q));
        lemma_agree_dependencies(s, t, n, e);
    } else {
        assert(d == q);
        assert(t[b] == s[b]);
        assert(s[b] == '#' || b == end);
        assert forall|x: int| d <= x < b implies is_blank_char(#[trigger] s[x]) by {}
        assert forall|x: int| d <= x < b implies is_blank_char(#[trigger] t[x]) by {
            assert(t[x] == s[x]);
        }
        lemma_through_blanks(s, d, b);
        lemma_through_blanks(t, d, b);
        if b + 1 < n {
            assert(t[b + 1] == s[b + 1]);
        }
        assert(separator_len(s, b) == 0);
        assert(separator_len(t, b) == 0);
        assert(separators_end(t, q) == b);
        assert(!starts_name(t, b));
    }
}

/// A declaration that ends, with its line break, before `n` is found
/// alike in a text that is the same before `n`.
proof fn lemma_agree_rule_line(s: Seq<char>, t: Seq<char>, n: int, i: int)
    requires
        agree_before(s, t, n),
        0 <= i <= s.len(),
        header_at(s, i) is Some,
        line_break_len(s, line_at(s, i).1) > 0,
        line_at(s, i).1 + line_break_len(s, line_at(s, i).1) <= n,
    ensures
        rule_at(t, i) == rule_at(s, i),
{
    lemma_name_end(s, i);
    let colon = name_end(s, i);
    let after = colon + 1;
    lemma_dependencies_end(s, after);
    let d = dependencies_at(s, after).1;
    lemma_ends(s, d);
    let b = blanks_end(s, d);
    lemma_ends(s, b);
    lemma_agree_name_end(s, t, n, i);
    assert(t[i] == s[i]);
    assert(t[colon] == s[colon]);
    assert(t.subrange(i, colon) =~= s.subrange(i, colon));
    assert(header_at(t, i) == header_at(s, i));
    lemma_agree_dependencies(s, t, n, after);
    lemma_agree_blanks_end(s, t, n, d);
    assert(t[b] == s[b]);
    if s[b] == '#' {
        lemma_agree_line_end(s, t, n, b + 1);
    }
}

/// A directive that ends, with its line break, before `n` is found alike
/// in a text that is the same before `n`.
proof fn lemma_agree_goal_line(s: Seq<char>, t: Seq<char>, n: int, i: int)
    requires
        agree_before(s, t, n),
        0 <= i <= s.len(),
        header_at(s, i) is None,
        goal_at(s, i) is Some,
        line_break_len(s, line_at(s, i).1) > 0,
        line_at(s, i).1 + line_break_len(s, line_at(s, i).1) <= n,
    ensures
        header_at(t, i) is None,
        goal_at(t, i) == goal_at(s, i),
{
    let word = goal_directive();
    let end = line_at(s, i).1;
    let from = i + word.len();
    lemma_name_end(s, from);
    let named = name_end(s, from);
    lemma_ends(s, named);
    let b = blanks_end(s, named);
    lemma_ends(s, b);
    assert(from < named <= b <= end < n);
    assert(t.subrange(i, i + word.len()) =~= s.subrange(i, i + word.len()));
    lemma_directive_has_no_head(t, i);
    lemma_agree_name_end(s, t, n, from);
    assert(t[from] == s[from]);
    assert(t.subrange(from, named) =~= s.subrange(from, named));
    lemma_agree_blanks_end(s, t, n, named);
    assert(t[b] == s[b]);
    if s[b] == '#' {
        lemma_agree_line_end(s, t, n, b + 1);
    }
    assert(t[end] == s[end]);
    if end + 1 < n {
        assert(t[end + 1] == s[end + 1]);
    }
}

/// A line that is passed over and ends, with its line feed, before `n` is
/// passed over in a text that is the same before `n`.
proof fn lemma_agree_other_line(s: Seq<char>, t: Seq<char>, n: int, i: int)
    requires
        agree_before(s, t, n),
        0 <= i <= s.len(),
        header_at(s, i) is None,
        goal_at(s, i) is None,
        line_end(s, i) < n,
    ensures
        header_at(t, i) is None,
        goal_at(t, i) is None,
        line_end(t, i) == line_end(s, i),
{
    let word = goal_directive();
    let end = line_end(s, i);
    lemma_directive_chars();
    lemma_line_feed_at_line_end(s, i);
    lemma_name_end_within_line(s, i);
    lemma_name_end(s, i);
    lemma_agree_line_end(s, t, n, i);
    let stop = name_end(s, i);
    if stop < n {
        lemma_agree_name_end(s, t, n, i);
        assert(t[stop] == s[stop]);
    }
    assert(t[i] == s[i]);
    assert(t[end] == s[end]);
    assert(header_at(t, i) is None);
    if stands_at(t, i, word) {
        assert forall|k: int| 0 <= k < 17 implies t[i + k] == #[trigger] word[k] by {
            assert(t.subrange(i, i + 17)[k] == t[i + k]);
        }
        if end < i + 17 {
            assert(t[i + (end - i)] == word[end - i]);
        }
        assert(i + 17 <= end);
        assert(s.subrange(i, i + 17) =~= t.subrange(i, i + 17));
        assert(stands_at(s, i, word));
        let from = i + 17;
        lemma_line_same(s, i, from);
        lemma_name_end(s, from);
        lemma_name_end_within_line(s, from);
        let named = name_end(s, from);
        assert(named <= end);
        lemma_agree_name_end(s, t, n, from);
        assert(t[from] == s[from]);
        if target_name_at(s, from) is Some {
            lemma_line_same(s, i, named);
            lemma_blanks_within_line(s, named);
            lemma_ends(s, named);
            let b = blanks_end(s, named);
            assert(b <= end);
            lemma_agree_blanks_end(s, t, n, named);
            assert(t[b] == s[b]);
            if s[b] == '#' {
                lemma_line_same(s, i, b + 1);
            } else {
                assert(b < end);
                assert(t[b + 1] == s[b + 1]);
                assert(line_break_len(t, b) == 0);
            }
        }
    }
}

/// A line that ends, with its line break, before `n` is found alike in a
/// text that is the same before `n`.
pub proof fn lemma_agree_line(s: Seq<char>, t: Seq<char>, n: int, i: int)
    requires
        agree_before(s, t, n),
        0 <= i <= s.len(),
        line_break_len(s, line_at(s, i).1) > 0,
        line_at(s, i).1 + line_break_len(s, line_at(s, i).1) <= n,
    ensures
        line_at(t, i) == line_at(s, i),
        line_break_len(t, line_at(s, i).1) == line_break_len(s, line_at(s, i).1),
{
    let end = line_at(s, i).1;
    lemma_line_end(s, i);
    if header_at(s, i) is Some {
        lemma_agree_rule_line(s, t, n, i);
    } else if goal_at(s, i) is Some {
        lemma_agree_goal_line(s, t, n, i);
    } else {
        lemma_agree_other_line(s, t, n, i);
    }
    assert(t[end] == s[end]);
    if end + 1 < n {
        assert(t[end + 1] == s[end + 1]);
    }
}

/// A name ends within its line.
pub proof fn lemma_name_end_within_line(s: Seq<char>, i: int)
    requires
        0 <= i <= s.len(),
    ensures
        name_end(s, i) <= line_end(s, i),
    decreases s.len() - i,
{
    lemma_ends(s, i);
    if i < s.len() && is_name_char(s[i]) {
        lemma_name_end_within_line(s, i + 1);
    }
}

/// A run of blanks ends within its line.
pub proof fn lemma_blanks_within_line(s: Seq<char>, i: int)
    requires
        0 <= i <= s.len(),
    ensures
        blanks_end(s, i) <= line_end(s, i),
    decreases s.len() - i,
{
    lemma_ends(s, i);
    if i < s.len() && (s[i] == ' ' || s[i] == '\t') {
        lemma_blanks_within_line(s, i + 1);
    }
}

/// Two places of one line have the line end in the same place.
pub proof fn lemma_line_same(s: Seq<char>, i: int, j: int)
    requires
        0 <= i <= j <= line_end(s, i),
    ensures
        line_end(s, j) == line_end(s, i),
    decreases j - i,
{
    lemma_ends(s, i);
    if i < j {
        lemma_ends(s, i + 1);
        lemma_line_same(s, i + 1, j);
    }
}


/// A line ends at or before each line feed that follows its beginning.
pub proof fn lemma_line_end_before(s: Seq<char>, i: int, k: int)
    requires
        0 <= i <= k < s.len(),
        s[k] == '\n',
    ensures
        line_end(s, i) <= k,
    decreases k - i,
{
    if i < k && s[i] != '\n' {
        lemma_line_end_before(s, i + 1, k);
    }
}

/// A list of dependencies ends where it begins or after a name character.
pub proof fn lemma_dependencies_stop(s: Seq<char>, q: int)
    requires
        0 <= q <= s.len(),
    ensures
        dependencies_at(s, q).1 == q || (0 < dependencies_at(s, q).1 <= s.len() && is_name_char(
            s[dependencies_at(s, q).1 - 1],
        )),
    decreases s.len() - q,
{
    let p = separators_end(s, q);
    lemma_separators_end(s, q);
    lemma_name_end(s, p);
    if dependency_at(s, q) is Some {
        let e = name_end(s, p);
        assert(is_name_char(s[e - 1]));
        lemma_dependencies_stop(s, e);
    }
}

/// What follows the dependencies, a name or blanks on a line ends within
/// that line.
proof fn lemma_tail_within_line(s: Seq<char>, d: int)
    requires
        0 <= d <= s.len(),
    ensures
        d <= optional_comment_end(s, blanks_end(s, d)) <= line_end(s, d),
{
    lemma_ends(s, d);
    lemma_blanks_within_line(s, d);
    let b = blanks_end(s, d);
    lemma_ends(s, b);
    lemma_line_feed_at_line_end(s, d);
    if b < s.len() && s[b] == '#' {
        lemma_line_same(s, d, b + 1);
    }
}

/// In a text that ends with a line feed, every line that begins before
/// the end of the text ends before it.
proof fn lemma_line_ends_before_last(s: Seq<char>, i: int)
    requires
        0 <= i < s.len(),
        s.last() == '\n',
    ensures
        i <= line_at(s, i).1 < s.len(),
{
    let last = s.len() - 1;
    lemma_line_end(s, i);
    lemma_name_end(s, i);
    if header_at(s, i) is Some {
        let after = name_end(s, i) + 1;
        lemma_dependencies_end(s, after);
        lemma_dependencies_stop(s, after);
        let d = dependencies_at(s, after).1;
        assert(d <= last);
        lemma_tail_within_line(s, d);
        lemma_line_end_before(s, d, last);
    } else if goal_at(s, i) is Some {
        let from = i + goal_directive().len();
        lemma_name_end(s, from);
        let named = name_end(s, from);
        assert(named <= last);
        lemma_tail_within_line(s, named);
        lemma_line_end_before(s, named, last);
    } else {
        lemma_line_end_before(s, i, last);
    }
}

/// Lines first: where whole lines are a build file, a text that begins
/// with them says what the rest of it says on top of their graph.
pub proof fn lemma_lines_first(pre: Seq<char>, more: Seq<char>, from: int, g: GraphModel)
    requires
        0 <= from <= pre.len(),
        pre.len() == 0 || pre.last() == '\n',
        document_from(pre, from, g) is Some,
    ensures
        document_from(pre + more, from, g) == document_from(
            more,
            0,
            document_from(pre, from, g)->0,
        ),
    decreases pre.len() - from,
{
    let t = pre + more;
    let n = pre.len() as int;
    assert(agree_before(pre, t, n));
    if from == n {
        assert(line_at(pre, n) == (Line::Other, n));
        assert(t.skip(n) =~= more);
        lemma_skip_document(t, n, n, g);
    } else {
        lemma_line_ends_before_last(pre, from);
        let line = line_at(pre, from).0;
        let end = line_at(pre, from).1;
        let l = line_break_len(pre, end);
        assert(l > 0);
        lemma_agree_line(pre, t, n, from);
        lemma_lines_first(pre, more, end + l, take_line(g, line));
    }
}

/// Whole lines that are a build file: the text is empty or ends with a
/// line feed, and it can be read.
pub open spec fn whole_lines(pre: Seq<char>) -> bool {
    &&& pre.len() == 0 || pre.last() == '\n'
    &&& document_from(pre, 0, GraphModel::empty()) is Some
}

/// Blanks and a comment at the end of any line of a build file change
/// nothing of what the file says. The line begins after `before`; it is a
/// declaration whose dependencies end where `head` ends, or a directive
/// whose name ends there.
pub proof fn lemma_document_line_tail(
    before: Seq<char>,
    head: Seq<char>,
    tail: Seq<char>,
    rest: Seq<char>,
)
    requires
        whole_lines(before),
        is_line_tail(tail),
        at_line_break(rest),
        ends_declaration(head, tail, rest, 0) || ends_directive(head, tail, rest, 0),
    ensures
        document(before + (head + tail + rest)) == document(before + (head + rest)),
{
    let g = document_from(before, 0, GraphModel::empty())->0;
    lemma_lines_first(before, head + tail + rest, 0, GraphModel::empty());
    lemma_lines_first(before, head + rest, 0, GraphModel::empty());
    lemma_line_tail_changes_nothing(head, tail, rest, 0, g);
}

/// Between two dependencies of any declaration of a build file one run of
/// separators is as good as another: a line continuation in place of
/// blanks changes nothing of what the file says. The declaration begins
/// after `before`; `head` ends with a dependency, or with the colon, and
/// a dependency begins `rest`.
pub proof fn lemma_document_separator_runs(
    before: Seq<char>,
    head: Seq<char>,
    one: Seq<char>,
    other: Seq<char>,
    rest: Seq<char>,
)
    requires
        whole_lines(before),
        is_separator_run(one),
        is_separator_run(other),
        header_at(head, 0) is Some,
        dependencies_at(head, name_end(head, 0) + 1).1 == head.len(),
        head.len() == name_end(head, 0) + 1 || (one.len() > 0 && is_blank_char(one[0])
            && other.len() > 0 && is_blank_char(other[0])),
        starts_name(rest, 0),
        separator_len(rest, 0) == 0,
    ensures
        document(before + (head + one + rest)) == document(before + (head + other + rest)),
{
    let g = document_from(before, 0, GraphModel::empty())->0;
    lemma_lines_first(before, head + one + rest, 0, GraphModel::empty());
    lemma_lines_first(before, head + other + rest, 0, GraphModel::empty());
    lemma_separator_runs_alike(head, one, other, rest, 0, g);
}

} // verus!
