//! The readable description of what `apply` would do.
use vstd::prelude::*;

use crate::dedupe::{group_views, Group, GroupView};
use crate::ident::Format;
use crate::text::{decimal, push_decimal, push_str, string_of};

verus! {

/// One step of a plan.
#[derive(Debug)]
pub enum Action {
    /// Move a file to its routed destination.
    Move { from: String, to: String },
    /// Set a file aside without destroying it.
    Quarantine { from: String, to: String, reason: String },
    /// Expand an archive, filing each member by what it turned out to be.
    ///
    /// The members are resolved at scan time, so the plan states every path
    /// that will be written before anything is. The archive itself is left
    /// where it is.
    Extract { from: String, format: Format, members: Vec<PlannedMember> },
}

/// One file inside a planned archive extraction.
#[derive(Debug)]
pub struct PlannedMember {
    /// Path inside the archive, sanitised at scan time.
    pub name: String,
    /// Where it lands.
    pub to: String,
    /// Size the archive's header claims, and the cap enforced while writing.
    pub size: u64,
}

pub struct PlannedMemberView {
    pub name: Seq<char>,
    pub to: Seq<char>,
    pub size: u64,
}

impl View for PlannedMember {
    type V = PlannedMemberView;

    open spec fn view(&self) -> PlannedMemberView {
        PlannedMemberView { name: self.name@, to: self.to@, size: self.size }
    }
}

pub open spec fn planned_views(ms: Seq<PlannedMember>) -> Seq<PlannedMemberView> {
    Seq::new(ms.len(), |i: int| ms[i]@)
}

pub enum ActionView {
    Move { from: Seq<char>, to: Seq<char> },
    Quarantine { from: Seq<char>, to: Seq<char>, reason: Seq<char> },
    Extract { from: Seq<char>, format: Format, members: Seq<PlannedMemberView> },
}

impl View for Action {
    type V = ActionView;

    open spec fn view(&self) -> ActionView {
        match self {
            Action::Move { from, to } => ActionView::Move { from: from@, to: to@ },
            Action::Quarantine { from, to, reason } => ActionView::Quarantine {
                from: from@,
                to: to@,
                reason: reason@,
            },
            Action::Extract { from, format, members } => ActionView::Extract {
                from: from@,
                format: *format,
                members: planned_views(members@),
            },
        }
    }
}

pub open spec fn action_views(a: Seq<Action>) -> Seq<ActionView> {
    Seq::new(a.len(), |i: int| a[i]@)
}

/// A readable, re-runnable description of what `apply` would do.
///
/// Scanning never touches the filesystem; it only emits one of these. That
/// keeps dry-run the default and makes the destructive phase an explicit,
/// separate step operating on a file a human can read first.
#[derive(Debug)]
pub struct Plan {
    pub root: String,
    pub scanned: usize,
    pub actions: Vec<Action>,
    pub duplicates: Vec<Group>,
    /// Files no rule claimed. Left where they are; listed so the gap in the
    /// rules is visible instead of silent.
    pub unroutable: Vec<String>,
}

/// Bytes wasted by the extra copies in duplicate groups.
pub open spec fn reclaimable_spec(gs: Seq<GroupView>) -> int
    decreases gs.len(),
{
    if gs.len() == 0 {
        0
    } else {
        reclaimable_spec(gs.drop_last()) + gs.last().size * (gs.last().paths.len() - 1)
    }
}

/// Sum of the members' declared sizes.
pub open spec fn member_bytes(ms: Seq<PlannedMemberView>) -> int
    decreases ms.len(),
{
    if ms.len() == 0 {
        0
    } else {
        member_bytes(ms.drop_last()) + ms.last().size
    }
}

/// Bytes the extractions in a list of actions write.
pub open spec fn extracted_spec(acts: Seq<ActionView>) -> int
    decreases acts.len(),
{
    if acts.len() == 0 {
        0
    } else {
        extracted_spec(acts.drop_last()) + match acts.last() {
            ActionView::Extract { members, .. } => member_bytes(members),
            _ => 0,
        }
    }
}

/// How many actions of each kind: moves, quarantines, extractions.
pub open spec fn tally_spec(acts: Seq<ActionView>) -> (int, int, int)
    decreases acts.len(),
{
    if acts.len() == 0 {
        (0, 0, 0)
    } else {
        let (m, q, e) = tally_spec(acts.drop_last());
        match acts.last() {
            ActionView::Move { .. } => (m + 1, q, e),
            ActionView::Quarantine { .. } => (m, q + 1, e),
            ActionView::Extract { .. } => (m, q, e + 1),
        }
    }
}

proof fn lemma_reclaimable_mono(gs: Seq<GroupView>, k: int)
    requires
        0 <= k <= gs.len(),
        forall|i: int| 0 <= i < gs.len() ==> gs[i].paths.len() >= 1,
    ensures
        0 <= reclaimable_spec(gs.take(k)) <= reclaimable_spec(gs),
    decreases gs.len() - k,
{
    if k < gs.len() {
        lemma_reclaimable_mono(gs, k + 1);
        assert(gs.take(k + 1).drop_last() == gs.take(k));
        assert(gs.take(k + 1).last() == gs[k]);
        assert(gs[k].size * (gs[k].paths.len() - 1) >= 0) by (nonlinear_arith)
            requires gs[k].paths.len() >= 1;
        let t = gs.take(k);
        assert forall|i: int| 0 <= i < t.len() implies t[i].paths.len() >= 1 by {
            assert(t[i] == gs[i]);
        }
        lemma_reclaimable_nonneg(t);
    } else {
        assert(gs.take(k) == gs);
        lemma_reclaimable_nonneg(gs);
    }
}

proof fn lemma_reclaimable_nonneg(gs: Seq<GroupView>)
    requires
        forall|i: int| 0 <= i < gs.len() ==> gs[i].paths.len() >= 1,
    ensures
        reclaimable_spec(gs) >= 0,
    decreases gs.len(),
{
    if gs.len() > 0 {
        let init = gs.drop_last();
        assert forall|i: int| 0 <= i < init.len() implies init[i].paths.len() >= 1 by {
            assert(init[i] == gs[i]);
        }
        lemma_reclaimable_nonneg(init);
        let g = gs[gs.len() - 1];
        assert(g.size * (g.paths.len() - 1) >= 0) by (nonlinear_arith)
            requires g.paths.len() >= 1;
    }
}

proof fn lemma_member_bytes_mono(ms: Seq<PlannedMemberView>, k: int)
    requires
        0 <= k <= ms.len(),
    ensures
        0 <= member_bytes(ms.take(k)) <= member_bytes(ms),
    decreases ms.len() - k,
{
    if k < ms.len() {
        lemma_member_bytes_mono(ms, k + 1);
        assert(ms.take(k + 1).drop_last() == ms.take(k));
        lemma_member_bytes_nonneg(ms.take(k));
    } else {
        assert(ms.take(k) == ms);
        lemma_member_bytes_nonneg(ms);
    }
}

proof fn lemma_member_bytes_nonneg(ms: Seq<PlannedMemberView>)
    ensures
        member_bytes(ms) >= 0,
    decreases ms.len(),
{
    if ms.len() > 0 {
        lemma_member_bytes_nonneg(ms.drop_last());
    }
}

proof fn lemma_extracted_mono(acts: Seq<ActionView>, k: int)
    requires
        0 <= k <= acts.len(),
    ensures
        0 <= extracted_spec(acts.take(k)) <= extracted_spec(acts),
    decreases acts.len() - k,
{
    if k < acts.len() {
        lemma_extracted_mono(acts, k + 1);
        lemma_extracted_nonneg(acts.take(k));
        assert(acts.take(k + 1).drop_last() == acts.take(k));
        assert(acts.take(k + 1).last() == acts[k]);
        match acts[k] {
            ActionView::Extract { members, .. } => lemma_member_bytes_nonneg(members),
            _ => {},
        }
    } else {
        assert(acts.take(k) == acts);
        lemma_extracted_nonneg(acts);
    }
}

proof fn lemma_extracted_nonneg(acts: Seq<ActionView>)
    ensures
        extracted_spec(acts) >= 0,
    decreases acts.len(),
{
    if acts.len() > 0 {
        lemma_extracted_nonneg(acts.drop_last());
        match acts.last() {
            ActionView::Extract { members, .. } => lemma_member_bytes_nonneg(members),
            _ => {},
        }
    }
}

/// Every action is counted once, under exactly one kind: the tally's three
/// counts add up to the number of actions.
pub proof fn lemma_tally_counts_every_action(acts: Seq<ActionView>)
    ensures
        0 <= tally_spec(acts).0 && 0 <= tally_spec(acts).1 && 0 <= tally_spec(acts).2,
        tally_spec(acts).0 + tally_spec(acts).1 + tally_spec(acts).2 == acts.len(),
    decreases acts.len(),
{
    if acts.len() > 0 {
        lemma_tally_counts_every_action(acts.drop_last());
    }
}

impl Plan {
    /// Bytes that would be reclaimed by resolving every duplicate group.
    pub fn reclaimable(&self) -> (b: u64)
        requires
            forall|i: int| 0 <= i < self.duplicates@.len() ==> self.duplicates@[i]@.paths.len() >= 1,
            reclaimable_spec(group_views(self.duplicates@)) <= u64::MAX,
        ensures
            b == reclaimable_spec(group_views(self.duplicates@)),
    {
        let ghost gs = group_views(self.duplicates@);
        let mut total: u64 = 0;
        let mut i: usize = 0;
        while i < self.duplicates.len()
            invariant
                0 <= i <= self.duplicates@.len(),
                gs == group_views(self.duplicates@),
                forall|j: int| 0 <= j < gs.len() ==> gs[j].paths.len() >= 1,
                reclaimable_spec(gs) <= u64::MAX,
                total == reclaimable_spec(gs.take(i as int)),
            decreases self.duplicates@.len() - i,
        {
            let g = &self.duplicates[i];
            proof {
                assert(gs.take(i + 1).drop_last() == gs.take(i as int));
                assert(gs.take(i + 1).last() == g@);
                lemma_reclaimable_mono(gs, i + 1);
                lemma_reclaimable_mono(gs, i as int);
            }
            let extra = (g.paths.len() - 1) as u64;
            assert(g.size * extra <= u64::MAX);
            total = total + g.size * extra;
            i = i + 1;
        }
        assert(gs.take(i as int) == gs);
        total
    }

    /// Bytes `apply` would write out of archives.
    pub fn extracted_bytes(&self) -> (b: u64)
        requires
            extracted_spec(action_views(self.actions@)) <= u64::MAX,
        ensures
            b == extracted_spec(action_views(self.actions@)),
    {
        let ghost acts = action_views(self.actions@);
        let mut total: u64 = 0;
        let mut i: usize = 0;
        while i < self.actions.len()
            invariant
                0 <= i <= self.actions@.len(),
                acts == action_views(self.actions@),
                extracted_spec(acts) <= u64::MAX,
                total == extracted_spec(acts.take(i as int)),
            decreases self.actions@.len() - i,
        {
            proof {
                assert(acts.take(i + 1).drop_last() == acts.take(i as int));
                assert(acts.take(i + 1).last() == self.actions@[i as int]@);
                lemma_extracted_mono(acts, i + 1);
            }
            match &self.actions[i] {
                Action::Extract { members, .. } => {
                    let ghost ms = planned_views(members@);
                    let mut sum: u64 = 0;
                    let mut j: usize = 0;
                    while j < members.len()
                        invariant
                            0 <= j <= members@.len(),
                            ms == planned_views(members@),
                            total + member_bytes(ms) <= u64::MAX,
                            sum == member_bytes(ms.take(j as int)),
                        decreases members@.len() - j,
                    {
                        proof {
                            assert(ms.take(j + 1).drop_last() == ms.take(j as int));
                            lemma_member_bytes_mono(ms, j + 1);
                        }
                        sum = sum + members[j].size;
                        j = j + 1;
                    }
                    assert(ms.take(j as int) == ms);
                    total = total + sum;
                },
                _ => {},
            }
            i = i + 1;
        }
        assert(acts.take(i as int) == acts);
        total
    }

    /// How many moves, quarantines and extractions the plan holds.
    pub fn tally(&self) -> (t: (usize, usize, usize))
        ensures
            t.0 == tally_spec(action_views(self.actions@)).0,
            t.1 == tally_spec(action_views(self.actions@)).1,
            t.2 == tally_spec(action_views(self.actions@)).2,
    {
        let ghost acts = action_views(self.actions@);
        let mut moves: usize = 0;
        let mut quarantines: usize = 0;
        let mut extracts: usize = 0;
        let mut i: usize = 0;
        while i < self.actions.len()
            invariant
                0 <= i <= self.actions@.len(),
                acts == action_views(self.actions@),
                (moves as int, quarantines as int, extracts as int) == tally_spec(acts.take(i as int)),
            decreases self.actions@.len() - i,
        {
            proof {
                assert(acts.take(i + 1).drop_last() == acts.take(i as int));
                assert(acts.take(i + 1).last() == self.actions@[i as int]@);
                lemma_tally_counts_every_action(acts.take(i + 1));
            }
            match &self.actions[i] {
                Action::Move { .. } => moves = moves + 1,
                Action::Quarantine { .. } => quarantines = quarantines + 1,
                Action::Extract { .. } => extracts = extracts + 1,
            }
            i = i + 1;
        }
        assert(acts.take(i as int) == acts);
        (moves, quarantines, extracts)
    }
}


/// The dry-run line for one planned member of an extraction.
pub open spec fn member_line(m: PlannedMemberView) -> Seq<char> {
    "             "@ + m.name + " -> "@ + m.to
}

/// What a dry run prints for one action: one line, and for an extraction one
/// more line per member.
pub open spec fn describe_spec(a: ActionView) -> Seq<Seq<char>> {
    match a {
        ActionView::Move { from, to } => seq!["move      "@ + from + " -> "@ + to],
        ActionView::Quarantine { from, to, reason } => seq![
            "quarantine "@ + from + " -> "@ + to + " ("@ + reason + ")"@,
        ],
        ActionView::Extract { from, members, .. } => seq![
            "extract   "@ + from + " ("@ + decimal(members.len()) + " members)"@,
        ] + Seq::new(members.len(), |i: int| member_line(members[i])),
    }
}

pub open spec fn line_views(v: Seq<String>) -> Seq<Seq<char>> {
    Seq::new(v.len(), |i: int| v[i]@)
}

impl Action {
    /// The lines a dry run prints for this action.
    pub fn describe(&self) -> (lines: Vec<String>)
        ensures
            line_views(lines@) == describe_spec(self@),
    {
        let mut lines: Vec<String> = Vec::new();
        match self {
            Action::Move { from, to } => {
                let mut out: Vec<char> = Vec::new();
                push_str(&mut out, "move      ");
                push_str(&mut out, from.as_str());
                push_str(&mut out, " -> ");
                push_str(&mut out, to.as_str());
                lines.push(string_of(&out));
                assert(line_views(lines@) =~= describe_spec(self@));
            },
            Action::Quarantine { from, to, reason } => {
                let mut out: Vec<char> = Vec::new();
                push_str(&mut out, "quarantine ");
                push_str(&mut out, from.as_str());
                push_str(&mut out, " -> ");
                push_str(&mut out, to.as_str());
                push_str(&mut out, " (");
                push_str(&mut out, reason.as_str());
                push_str(&mut out, ")");
                lines.push(string_of(&out));
                assert(line_views(lines@) =~= describe_spec(self@));
            },
            Action::Extract { from, members, .. } => {
                let ghost ms = planned_views(members@);
                let mut out: Vec<char> = Vec::new();
                push_str(&mut out, "extract   ");
                push_str(&mut out, from.as_str());
                push_str(&mut out, " (");
                push_decimal(&mut out, members.len() as u64);
                push_str(&mut out, " members)");
                lines.push(string_of(&out));
                let mut i: usize = 0;
                while i < members.len()
                    invariant
                        0 <= i <= members@.len(),
                        ms == planned_views(members@),
                        lines@.len() == i + 1,
                        line_views(lines@)[0] == "extract   "@ + from@ + " ("@ + decimal(ms.len()) + " members)"@,
                        forall|j: int| 0 <= j < i ==> #[trigger] line_views(lines@)[j + 1] == member_line(ms[j]),
                    decreases members@.len() - i,
                {
                    let mut line: Vec<char> = Vec::new();
                    push_str(&mut line, "             ");
                    push_str(&mut line, members[i].name.as_str());
                    push_str(&mut line, " -> ");
                    push_str(&mut line, members[i].to.as_str());
                    let ghost before = lines@;
                    let text = string_of(&line);
                    let ghost tv = text@;
                    assert(tv == member_line(ms[i as int]));
                    lines.push(text);
                    proof {
                        assert(ms[i as int] == members@[i as int]@);
                        assert forall|j: int| 0 <= j < i + 1 implies #[trigger] line_views(lines@)[j + 1] == member_line(ms[j]) by {
                            if j < i {
                                assert(line_views(before)[j + 1] == member_line(ms[j]));
                                assert(lines@[j + 1] == before[j + 1]);
                            } else {
                                assert(lines@ == before.push(lines@[i + 1]));
                                assert(line_views(lines@)[j + 1] == lines@[i + 1]@);
                                assert(lines@[i + 1]@ == tv);
                            }
                        }
                    }
                    i = i + 1;
                }
                proof {
                    let want = describe_spec(self@);
                    assert(want.len() == lines@.len());
                    assert forall|j: int| 0 <= j < lines@.len() implies #[trigger] line_views(lines@)[j] == want[j] by {
                        if j > 0 {
                            assert(line_views(lines@)[(j - 1) + 1] == member_line(ms[j - 1]));
                        }
                    }
                    assert(line_views(lines@) =~= want);
                }
            },
        }
        lines
    }
}

} // verus!
