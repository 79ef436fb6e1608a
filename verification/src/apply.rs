//! Carrying out a plan: the decision made before each move and each
//! archive member written, and what running a plan again does.
use vstd::prelude::*;

use crate::plan::{ActionView, PlannedMemberView};

verus! {

/// What `apply` does with one move or quarantine.
#[derive(Debug, PartialEq, Eq, Structural)]
pub enum MoveStep {
    /// The source is gone: an earlier run already moved it.
    AlreadyDone,
    /// Something is already at the destination; it is never clobbered.
    DestinationTaken,
    /// Move the file (creating the destination's directory first).
    Relocate,
}

/// Every step is skip-if-done rather than fail-if-done, so a run interrupted
/// halfway can simply be run again: a move whose source is gone was done
/// already, and an existing destination is left alone.
pub open spec fn move_step_spec(source_exists: bool, destination_exists: bool) -> MoveStep {
    if !source_exists {
        MoveStep::AlreadyDone
    } else if destination_exists {
        MoveStep::DestinationTaken
    } else {
        MoveStep::Relocate
    }
}

/// Decide one move, from whether its source and its destination exist.
pub fn move_step(source_exists: bool, destination_exists: bool) -> (s: MoveStep)
    ensures
        s == move_step_spec(source_exists, destination_exists),
{
    if !source_exists {
        MoveStep::AlreadyDone
    } else if destination_exists {
        MoveStep::DestinationTaken
    } else {
        MoveStep::Relocate
    }
}

/// An existing destination is never overwritten, and a move that already
/// happened (its source gone, its destination there) is not redone: running
/// a plan again after it completed changes nothing.
pub proof fn lemma_never_clobbers(source_exists: bool, destination_exists: bool)
    ensures
        destination_exists ==> move_step_spec(source_exists, destination_exists) != MoveStep::Relocate,
        !source_exists ==> move_step_spec(source_exists, destination_exists) == MoveStep::AlreadyDone,
{
}


/// What `apply` does with one archive member it is to write.
#[derive(Debug, PartialEq, Eq, Structural)]
pub enum MemberStep {
    /// Something is already at the destination: an earlier run wrote it, or
    /// it is someone else's file. Either way it is never overwritten.
    AlreadyThere,
    /// Write the member (through a temporary sibling, renamed into place).
    Write,
}

pub open spec fn member_step_spec(destination_exists: bool) -> MemberStep {
    if destination_exists {
        MemberStep::AlreadyThere
    } else {
        MemberStep::Write
    }
}

/// Decide one archive member, from whether its destination exists.
pub fn member_step(destination_exists: bool) -> (s: MemberStep)
    ensures
        s == member_step_spec(destination_exists),
{
    if destination_exists {
        MemberStep::AlreadyThere
    } else {
        MemberStep::Write
    }
}

/// How many of these members a run writes, when the paths in `there` exist.
pub open spec fn member_writes(ms: Seq<PlannedMemberView>, there: Set<Seq<char>>) -> nat
    decreases ms.len(),
{
    if ms.len() == 0 {
        0
    } else {
        member_writes(ms.drop_last(), there) + if member_step_spec(there.contains(ms.last().to))
            == MemberStep::Write { 1nat } else { 0nat }
    }
}

/// How many files one action creates or moves, when the paths in `there`
/// exist: a move or quarantine that relocates counts one, an extraction
/// counts the members it writes.
pub open spec fn action_writes(a: ActionView, there: Set<Seq<char>>) -> nat {
    match a {
        ActionView::Move { from, to } => if move_step_spec(there.contains(from), there.contains(to))
            == MoveStep::Relocate { 1 } else { 0 },
        ActionView::Quarantine { from, to, .. } => if move_step_spec(there.contains(from), there.contains(to))
            == MoveStep::Relocate { 1 } else { 0 },
        ActionView::Extract { members, .. } => member_writes(members, there),
    }
}

/// What a run of the whole plan does: how many files it creates or moves.
pub open spec fn run_writes(acts: Seq<ActionView>, there: Set<Seq<char>>) -> nat
    decreases acts.len(),
{
    if acts.len() == 0 {
        0
    } else {
        run_writes(acts.drop_last(), there) + action_writes(acts.last(), there)
    }
}

/// Every action of the plan is settled: a move's or quarantine's source is
/// gone or its destination exists, and every planned member's destination
/// exists. That is what each step of a completed run leaves: it moved its
/// file, found it moved already, or found its destination taken.
pub open spec fn settled(acts: Seq<ActionView>, there: Set<Seq<char>>) -> bool {
    forall|i: int|
        0 <= i < acts.len() ==> match #[trigger] acts[i] {
            ActionView::Move { from, to } => !there.contains(from) || there.contains(to),
            ActionView::Quarantine { from, to, .. } => !there.contains(from) || there.contains(to),
            ActionView::Extract { members, .. } => forall|k: int|
                0 <= k < members.len() ==> there.contains(#[trigger] members[k].to),
        }
}

proof fn lemma_members_all_there(ms: Seq<PlannedMemberView>, there: Set<Seq<char>>)
    requires
        forall|k: int| 0 <= k < ms.len() ==> there.contains(#[trigger] ms[k].to),
    ensures
        member_writes(ms, there) == 0,
    decreases ms.len(),
{
    if ms.len() > 0 {
        let init = ms.drop_last();
        assert forall|k: int| 0 <= k < init.len() implies there.contains(#[trigger] init[k].to) by {
            assert(init[k] == ms[k]);
        }
        lemma_members_all_there(init, there);
        assert(there.contains(ms[ms.len() - 1].to));
    }
}

/// A run interrupted halfway can simply be run again, and a run after one
/// that completed does nothing: once every action of the plan is settled,
/// running the plan writes, moves and overwrites no file.
pub proof fn lemma_rerun_does_nothing(acts: Seq<ActionView>, there: Set<Seq<char>>)
    requires
        settled(acts, there),
    ensures
        run_writes(acts, there) == 0,
    decreases acts.len(),
{
    if acts.len() > 0 {
        let init = acts.drop_last();
        assert forall|i: int| 0 <= i < init.len() implies match #[trigger] init[i] {
            ActionView::Move { from, to } => !there.contains(from) || there.contains(to),
            ActionView::Quarantine { from, to, .. } => !there.contains(from) || there.contains(to),
            ActionView::Extract { members, .. } => forall|k: int|
                0 <= k < members.len() ==> there.contains(#[trigger] members[k].to),
        } by {
            assert(init[i] == acts[i]);
        }
        lemma_rerun_does_nothing(init, there);
        let last = acts[acts.len() - 1];
        assert(last == acts.last());
        match last {
            ActionView::Extract { members, .. } => lemma_members_all_there(members, there),
            _ => {},
        }
    }
}

/// No archive member is written over an existing path.
pub proof fn lemma_member_never_clobbers(destination_exists: bool)
    ensures
        member_step_spec(destination_exists) == MemberStep::Write ==> !destination_exists,
{
}

} // verus!
