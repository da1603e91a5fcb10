//! What the progress display shows of a task.

use crate::graph::TargetName;
use crate::scheduler::TaskState;
use crate::text::chars_of;
use vstd::prelude::*;

verus! {

/// The stage that the display shows of a task.
#[derive(Clone, Copy, PartialEq, Eq, Debug, Structural)]
pub enum Phase {
    /// The task waits for its dependencies.
    Queued,
    /// The build command runs.
    Running,
    /// The task has ended.
    Done,
}

/// The stage shown for a state.
pub open spec fn phase_of(state: TaskState) -> Phase {
    match state {
        TaskState::Pending => Phase::Queued,
        TaskState::Running => Phase::Running,
        TaskState::Succeeded => Phase::Done,
        TaskState::Failed(_) => Phase::Done,
    }
}

/// The stage shown for a state.
pub fn phase(state: TaskState) -> (r: Phase)
    ensures
        r == phase_of(state),
{
    match state {
        TaskState::Pending => Phase::Queued,
        TaskState::Running => Phase::Running,
        TaskState::Succeeded => Phase::Done,
        TaskState::Failed(_) => Phase::Done,
    }
}

/// How far along a stage is, out of two steps.
pub open spec fn position_of(phase: Phase) -> u64 {
    match phase {
        Phase::Queued => 0,
        Phase::Running => 1,
        Phase::Done => 2,
    }
}

/// How far along a stage is, out of two steps.
pub fn position(phase: Phase) -> (r: u64)
    ensures
        r == position_of(phase),
{
    match phase {
        Phase::Queued => 0,
        Phase::Running => 1,
        Phase::Done => 2,
    }
}

/// What stands before the name of a task at a depth: nothing for a
/// requested target; below that, one space for each level past the first,
/// an arrow and a space.
pub open spec fn indentation_of(depth: nat) -> Seq<char> {
    if depth == 0 {
        Seq::empty()
    } else {
        Seq::new((depth - 1) as nat, |k: int| ' ').push('\u{2199}').push(' ')
    }
}

/// What stands before the name of a task at a depth.
pub fn indentation(depth: usize) -> (r: String)
    ensures
        r@ == indentation_of(depth as nat),
{
    let mut out = String::new();
    if depth == 0 {
        return out;
    }
    let mut k: usize = 1;
    while k < depth
        invariant
            1 <= k <= depth,
            out@ == Seq::new((k - 1) as nat, |j: int| ' '),
        decreases depth - k,
    {
        out.push(' ');
        assert(out@ =~= Seq::new(k as nat, |j: int| ' '));
        k += 1;
    }
    out.push('\u{2199}');
    out.push(' ');
    out
}

/// The label of a task: its indentation and its name.
pub fn task_label(depth: usize, name: &TargetName) -> (r: String)
    ensures
        r@ == indentation_of(depth as nat) + name@,
{
    let mut out = indentation(depth);
    let chars = chars_of(name.as_str());
    let ghost head = out@;
    let mut k: usize = 0;
    while k < chars.len()
        invariant
            k <= chars.len(),
            chars@ == name@,
            out@ == head + chars@.take(k as int),
        decreases chars.len() - k,
    {
        out.push(chars[k]);
        assert(out@ =~= head + chars@.take(k + 1));
        k += 1;
    }
    assert(chars@.take(chars.len() as int) =~= chars@);
    out
}


/// Whether a character is white space, as `char::is_whitespace` says.
pub uninterp spec fn is_white_space(c: char) -> bool;

/// Calls `char::is_whitespace`, which says whether the character has the
/// Unicode property White_Space.
#[verifier::external_body]
fn char_is_whitespace(c: char) -> (r: bool)
    ensures
        r == is_white_space(c),
{
    c.is_whitespace()
}

/// A line with nothing to show: every character of it is white space.
pub open spec fn is_blank(line: Seq<char>) -> bool {
    forall|i: int| 0 <= i < line.len() ==> is_white_space(#[trigger] line[i])
}

/// Whether a line of output has nothing to show.
pub fn is_blank_line(line: &str) -> (r: bool)
    ensures
        r == is_blank(line@),
{
    let chars = chars_of(line);
    let mut i: usize = 0;
    while i < chars.len()
        invariant
            i <= chars.len(),
            chars@ == line@,
            forall|k: int| 0 <= k < i ==> is_white_space(#[trigger] chars[k]),
        decreases chars.len() - i,
    {
        if !char_is_whitespace(chars[i]) {
            return false;
        }
        i += 1;
    }
    true
}

/// The message of a task after a line of its output: the line where it
/// has something to show, the message as it was where the line is blank.
pub fn message_after(message: Option<String>, line: &str) -> (r: Option<String>)
    ensures
        is_blank(line@) ==> r == message,
        !is_blank(line@) ==> r is Some && r->0@ == line@,
{
    if is_blank_line(line) {
        message
    } else {
        Some(line.to_owned())
    }
}


/// What the display holds of one task.
pub struct ProgressEntry {
    /// The stage of the task.
    pub phase: Phase,
    /// How deep in the walk the target was first met.
    pub depth: usize,
    /// The last line of output that had something to show.
    pub message: Option<String>,
}

impl ProgressEntry {
    /// The entry of a task that waits, with no output yet.
    pub fn new(depth: usize) -> (entry: ProgressEntry)
        ensures
            entry.phase == Phase::Queued,
            entry.depth == depth,
            entry.message is None,
    {
        ProgressEntry { phase: Phase::Queued, depth, message: None }
    }

    /// Takes in the state of the task: the stage follows it, and nothing
    /// else changes.
    pub fn observe(&mut self, state: TaskState)
        ensures
            final(self).phase == phase_of(state),
            final(self).depth == old(self).depth,
            final(self).message == old(self).message,
    {
        self.phase = phase(state);
    }

    /// Takes in a line of output: it becomes the message unless it is blank.
    pub fn output(&mut self, line: &str)
        ensures
            final(self).phase == old(self).phase,
            final(self).depth == old(self).depth,
            is_blank(line@) ==> final(self).message == old(self).message,
            !is_blank(line@) ==> final(self).message is Some && final(self).message->0@
                == line@,
    {
        if !is_blank_line(line) {
            self.message = Some(line.to_owned());
        }
    }
}

} // verus!
