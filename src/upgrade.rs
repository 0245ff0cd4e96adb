//! The suite upgrade of all source lists, as a sequence of steps.
//!
//! Each file is first copied to a backup, then rewritten with its upgraded
//! entries. When any step fails, every backup made so far is copied back over
//! its file, and the upgrade fails. The caller performs each action and
//! reports whether it succeeded; this module decides what comes next.
use vstd::prelude::*;

use crate::sources_list::{list_text, upgraded_file, ListView};
use crate::sources_lists::lemma_rename_to_same_suite;
use crate::sources_lists::SourcesLists;

verus! {

/// What the caller must do next.
#[derive(Debug, PartialEq, Eq)]
pub enum UpgradeAction {
    /// Copy the file at this position to its backup.
    Backup(usize),
    /// Truncate the file at this position, write this text to it and flush it.
    Write(usize, String),
    /// Copy the backup of the file at this position back over the file.
    Restore(usize),
    /// Every file was rewritten; the backups stay.
    Done,
    /// The upgrade failed; report the first failure.
    Failed,
}

/// How the last action went.
#[derive(Clone, Copy, Debug, PartialEq, Eq)]
pub enum UpgradeEvent {
    Succeeded,
    Failed,
}

/// Where the upgrade stands.
#[derive(Clone, Copy, Debug, PartialEq, Eq)]
pub enum UpgradePhase {
    /// Nothing was asked yet.
    Start,
    /// The backup of this file was asked for.
    Backing(usize),
    /// The rewrite of this file was asked for.
    Writing(usize),
    /// The restore of this backup was asked for.
    Restoring(usize),
    /// Every file was rewritten.
    Done,
    /// The upgrade failed, and every backup was restored.
    Failed,
}

/// An action, without the text to write.
pub ghost enum Step {
    Backup(int),
    Write(int),
    Restore(int),
    Done,
    Failed,
}

/// The state of an upgrade, as plain values.
pub ghost struct UpgradeView {
    pub phase: UpgradePhase,
    pub backups: nat,
}

/// The action `a` without its text.
pub open spec fn step_of(a: UpgradeAction) -> Step {
    match a {
        UpgradeAction::Backup(i) => Step::Backup(i as int),
        UpgradeAction::Write(i, _) => Step::Write(i as int),
        UpgradeAction::Restore(i) => Step::Restore(i as int),
        UpgradeAction::Done => Step::Done,
        UpgradeAction::Failed => Step::Failed,
    }
}

/// Whether `s` is a state that an upgrade of `n` files can reach: a file is
/// written only after its backup, and only made backups are restored.
pub open spec fn upgrade_ok(s: UpgradeView, n: nat) -> bool {
    match s.phase {
        UpgradePhase::Start => s.backups == 0,
        UpgradePhase::Backing(i) => i < n && s.backups == i,
        UpgradePhase::Writing(i) => i < n && s.backups == i + 1,
        UpgradePhase::Restoring(j) => j < s.backups <= n,
        UpgradePhase::Done => s.backups == n,
        UpgradePhase::Failed => s.backups <= n,
    }
}

/// The state and action after a failure with `b` backups made.
pub open spec fn fail_with(b: nat) -> (UpgradeView, Step) {
    if b > 0 {
        (UpgradeView { phase: UpgradePhase::Restoring(0), backups: b }, Step::Restore(0))
    } else {
        (UpgradeView { phase: UpgradePhase::Failed, backups: 0 }, Step::Failed)
    }
}

/// The state and action that follow the state `s` of an upgrade of `n`
/// files when the last action went as `ev` says.
pub open spec fn next_step(s: UpgradeView, n: nat, ev: UpgradeEvent) -> (UpgradeView, Step) {
    match s.phase {
        UpgradePhase::Start => if n == 0 {
            (UpgradeView { phase: UpgradePhase::Done, backups: 0 }, Step::Done)
        } else {
            (UpgradeView { phase: UpgradePhase::Backing(0), backups: 0 }, Step::Backup(0))
        },
        UpgradePhase::Backing(i) => match ev {
            UpgradeEvent::Succeeded => if i < n {
                (
                    UpgradeView { phase: UpgradePhase::Writing(i), backups: (i + 1) as nat },
                    Step::Write(i as int),
                )
            } else {
                fail_with(s.backups)
            },
            UpgradeEvent::Failed => fail_with(s.backups),
        },
        UpgradePhase::Writing(i) => match ev {
            UpgradeEvent::Succeeded => if i + 1 < n {
                (
                    UpgradeView { phase: UpgradePhase::Backing((i + 1) as usize), backups: s.backups },
                    Step::Backup(i + 1 as int),
                )
            } else {
                (UpgradeView { phase: UpgradePhase::Done, backups: s.backups }, Step::Done)
            },
            UpgradeEvent::Failed => fail_with(s.backups),
        },
        UpgradePhase::Restoring(j) => if j + 1 < s.backups {
            (
                UpgradeView { phase: UpgradePhase::Restoring((j + 1) as usize), backups: s.backups },
                Step::Restore(j + 1),
            )
        } else {
            (UpgradeView { phase: UpgradePhase::Failed, backups: s.backups }, Step::Failed)
        },
        UpgradePhase::Done => (s, Step::Done),
        UpgradePhase::Failed => (s, Step::Failed),
    }
}

/// The actions that an upgrade of `n` files in the state `s` asks for, when
/// its actions go as `evs` says, one event after each.
pub open spec fn run_steps(s: UpgradeView, n: nat, evs: Seq<UpgradeEvent>) -> Seq<Step>
    decreases evs.len(),
{
    if evs.len() == 0 {
        seq![]
    } else {
        let (s2, a) = next_step(s, n, evs[0]);
        seq![a] + run_steps(s2, n, evs.drop_first())
    }
}

proof fn lemma_restoring(j: nat, b: nat, n: nat, evs: Seq<UpgradeEvent>)
    requires
        j < b <= usize::MAX,
        evs.len() == b - j,
    ensures
        run_steps(UpgradeView { phase: UpgradePhase::Restoring(j as usize), backups: b }, n, evs)
            =~= Seq::new((b - j - 1) as nat, |x: int| Step::Restore(j + 1 + x)).push(Step::Failed),
    decreases b - j,
{
    let s = UpgradeView { phase: UpgradePhase::Restoring(j as usize), backups: b };
    let rest = evs.drop_first();
    if j + 1 < b {
        let s2 = UpgradeView { phase: UpgradePhase::Restoring((j + 1) as usize), backups: b };
        assert(next_step(s, n, evs[0]) == (s2, Step::Restore(j + 1 as int)));
        lemma_restoring(j + 1, b, n, rest);
        assert(run_steps(s, n, evs) == seq![Step::Restore(j + 1 as int)] + run_steps(s2, n, rest));
    } else {
        let s2 = UpgradeView { phase: UpgradePhase::Failed, backups: b };
        assert(next_step(s, n, evs[0]) == (s2, Step::Failed));
        assert(rest.len() == 0);
        assert(run_steps(s, n, evs) == seq![Step::Failed] + run_steps(s2, n, rest));
    }
}

/// Once an upgrade fails, in a backup or in a rewrite, its next actions
/// restore every backup made so far, first to last, whatever their outcomes,
/// and then report the failure: every file that was rewritten gets its
/// backup copied back over it.
pub proof fn lemma_failure_restores_backups(s: UpgradeView, n: nat, evs: Seq<UpgradeEvent>)
    requires
        upgrade_ok(s, n),
        n <= usize::MAX,
        s.phase is Backing || s.phase is Writing,
        evs.len() == s.backups + 1,
        evs[0] == UpgradeEvent::Failed,
    ensures
        run_steps(s, n, evs) =~= Seq::new(s.backups, |j: int| Step::Restore(j)).push(Step::Failed),
{
    let b = s.backups;
    let rest = evs.drop_first();
    assert(next_step(s, n, evs[0]) == fail_with(b));
    if b > 0 {
        let s2 = UpgradeView { phase: UpgradePhase::Restoring(0), backups: b };
        lemma_restoring(0, b, n, rest);
        assert(run_steps(s, n, evs) == seq![Step::Restore(0)] + run_steps(s2, n, rest));
    } else {
        let s2 = UpgradeView { phase: UpgradePhase::Failed, backups: 0 };
        assert(rest.len() == 0);
        assert(run_steps(s, n, evs) == seq![Step::Failed] + run_steps(s2, n, rest));
    }
}

/// `k` events that all report success.
pub open spec fn succeeded(k: nat) -> Seq<UpgradeEvent> {
    Seq::new(k, |x: int| UpgradeEvent::Succeeded)
}

/// The actions of a successful upgrade of `n` files from the moment file `i`
/// was backed up: it is rewritten, then each later file is backed up and
/// rewritten in turn, and the upgrade is done.
pub open spec fn plan_from(i: nat, n: nat) -> Seq<Step>
    decreases n - i,
{
    if i + 1 >= n {
        seq![Step::Write(i as int), Step::Done]
    } else {
        seq![Step::Write(i as int), Step::Backup(i + 1 as int)] + plan_from(i + 1, n)
    }
}

/// The actions of a successful upgrade of `n` files: each file is backed up,
/// then rewritten, in order, and the upgrade is done.
pub open spec fn success_plan(n: nat) -> Seq<Step> {
    if n == 0 {
        seq![Step::Done]
    } else {
        seq![Step::Backup(0)] + plan_from(0, n)
    }
}

proof fn lemma_backing_run(i: nat, n: nat)
    requires
        i < n <= usize::MAX,
    ensures
        run_steps(
            UpgradeView { phase: UpgradePhase::Backing(i as usize), backups: i },
            n,
            succeeded((2 * (n - i)) as nat),
        ) == plan_from(i, n),
    decreases n - i,
{
    let s = UpgradeView { phase: UpgradePhase::Backing(i as usize), backups: i };
    let evs = succeeded((2 * (n - i)) as nat);
    let s1 = UpgradeView { phase: UpgradePhase::Writing(i as usize), backups: i + 1 };
    let evs1 = evs.drop_first();
    assert(next_step(s, n, evs[0]) == (s1, Step::Write(i as int)));
    assert(run_steps(s, n, evs) == seq![Step::Write(i as int)] + run_steps(s1, n, evs1));
    let evs2 = evs1.drop_first();
    if i + 1 < n {
        let s2 = UpgradeView { phase: UpgradePhase::Backing((i + 1) as usize), backups: i + 1 };
        assert(next_step(s1, n, evs1[0]) == (s2, Step::Backup(i + 1 as int)));
        assert(run_steps(s1, n, evs1) == seq![Step::Backup(i + 1 as int)] + run_steps(s2, n, evs2));
        assert(evs2 =~= succeeded((2 * (n - (i + 1))) as nat));
        lemma_backing_run(i + 1, n);
        assert(run_steps(s, n, evs) =~= plan_from(i, n));
    } else {
        let s2 = UpgradeView { phase: UpgradePhase::Done, backups: i + 1 };
        assert(next_step(s1, n, evs1[0]) == (s2, Step::Done));
        assert(evs2.len() == 0);
        assert(run_steps(s1, n, evs1) == seq![Step::Done] + run_steps(s2, n, evs2));
        assert(run_steps(s, n, evs) =~= plan_from(i, n));
    }
}

/// An upgrade of `n` files whose actions all succeed backs up and then
/// rewrites each file in turn, and ends in `Done`.
pub proof fn lemma_success_run(n: nat)
    requires
        n <= usize::MAX,
    ensures
        run_steps(UpgradeView { phase: UpgradePhase::Start, backups: 0 }, n, succeeded(2 * n + 1))
            == success_plan(n),
{
    let s = UpgradeView { phase: UpgradePhase::Start, backups: 0 };
    let evs = succeeded(2 * n + 1);
    let rest = evs.drop_first();
    if n == 0 {
        let s1 = UpgradeView { phase: UpgradePhase::Done, backups: 0 };
        assert(rest.len() == 0);
        assert(run_steps(s, n, evs) == seq![Step::Done] + run_steps(s1, n, rest));
        assert(run_steps(s, n, evs) =~= success_plan(n));
    } else {
        let s1 = UpgradeView { phase: UpgradePhase::Backing(0), backups: 0 };
        assert(run_steps(s, n, evs) == seq![Step::Backup(0)] + run_steps(s1, n, rest));
        assert(rest =~= succeeded((2 * (n - 0)) as nat));
        lemma_backing_run(0, n);
    }
}

/// Upgrading from a suite to the same suite leaves a file, and so the text
/// that its rewrite writes, as it was.
pub proof fn lemma_same_suite_upgrade(f: ListView, suite: Seq<char>)
    ensures
        upgraded_file(f, suite, suite) == f,
        list_text(upgraded_file(f, suite, suite).lines) == list_text(f.lines),
{
    let fs = seq![f];
    lemma_rename_to_same_suite(fs, suite);
    assert(fs.map_values(|g: ListView| upgraded_file(g, suite, suite))[0] == upgraded_file(f, suite, suite));
}

/// An upgrade of every entry whose url starts with `http` and whose suite
/// starts with `from_suite`: in such a suite, every occurrence of
/// `from_suite` becomes `to_suite`.
pub struct DistUpgrade {
    /// The suite text to replace.
    pub from_suite: String,
    /// The suite text to put in its place.
    pub to_suite: String,
    /// Where the upgrade stands.
    pub phase: UpgradePhase,
    /// The number of files whose backup was made, the first ones.
    pub backups: usize,
}

impl View for DistUpgrade {
    type V = UpgradeView;

    open spec fn view(&self) -> UpgradeView {
        UpgradeView { phase: self.phase, backups: self.backups as nat }
    }
}

impl DistUpgrade {
    /// An upgrade from `from_suite` to `to_suite` that has not started.
    pub fn new(from_suite: String, to_suite: String) -> (r: Self)
        ensures
            r@ == (UpgradeView { phase: UpgradePhase::Start, backups: 0 }),
            r.from_suite == from_suite,
            r.to_suite == to_suite,
    {
        DistUpgrade { from_suite, to_suite, phase: UpgradePhase::Start, backups: 0 }
    }

    /// Where the upgrade stands.
    pub fn phase(&self) -> (r: UpgradePhase)
        ensures
            r == self@.phase,
    {
        self.phase
    }

    /// Takes the outcome `ev` of the last action (ignored before the first)
    /// and returns the next action. When a file's backup succeeds, the file
    /// is upgraded in `lists` and the action is to write its new text.
    pub fn step(&mut self, lists: &mut SourcesLists, ev: UpgradeEvent) -> (r: UpgradeAction)
        ensures
            (final(self)@, step_of(r)) == next_step(old(self)@, old(lists)@.files.len() as nat, ev),
            upgrade_ok(old(self)@, old(lists)@.files.len() as nat) ==> upgrade_ok(
                final(self)@,
                old(lists)@.files.len() as nat,
            ),
            final(self).from_suite == old(self).from_suite,
            final(self).to_suite == old(self).to_suite,
            final(lists)@.modified == old(lists)@.modified,
            match r {
                UpgradeAction::Write(i, text) => {
                    &&& final(lists)@.files == old(lists)@.files.update(
                        i as int,
                        upgraded_file(old(lists)@.files[i as int], old(self).from_suite@, old(self).to_suite@),
                    )
                    &&& text@ == list_text(final(lists)@.files[i as int].lines)
                },
                _ => final(lists)@.files == old(lists)@.files,
            },
    {
        let n = lists.files.len();
        match self.phase {
            UpgradePhase::Start => {
                self.backups = 0;
                if n == 0 {
                    self.phase = UpgradePhase::Done;
                    UpgradeAction::Done
                } else {
                    self.phase = UpgradePhase::Backing(0);
                    UpgradeAction::Backup(0)
                }
            },
            UpgradePhase::Backing(i) => match ev {
                UpgradeEvent::Succeeded => if i >= n {
                    self.fail()
                } else {
                    self.phase = UpgradePhase::Writing(i);
                    self.backups = i + 1;
                    let ghost before = lists@.files;
                    lists.files[i].upgrade_suites(self.from_suite.as_str(), self.to_suite.as_str());
                    assert(lists@.files =~= before.update(i as int, lists.files@[i as int]@));
                    let text = lists.files[i].to_string();
                    UpgradeAction::Write(i, text)
                },
                UpgradeEvent::Failed => self.fail(),
            },
            UpgradePhase::Writing(i) => match ev {
                UpgradeEvent::Succeeded => {
                    if i < n && n - i > 1 {
                        self.phase = UpgradePhase::Backing(i + 1);
                        UpgradeAction::Backup(i + 1)
                    } else {
                        self.phase = UpgradePhase::Done;
                        UpgradeAction::Done
                    }
                },
                UpgradeEvent::Failed => self.fail(),
            },
            UpgradePhase::Restoring(j) => {
                if j < self.backups && self.backups - j > 1 {
                    self.phase = UpgradePhase::Restoring(j + 1);
                    UpgradeAction::Restore(j + 1)
                } else {
                    self.phase = UpgradePhase::Failed;
                    UpgradeAction::Failed
                }
            },
            UpgradePhase::Done => UpgradeAction::Done,
            UpgradePhase::Failed => UpgradeAction::Failed,
        }
    }

    /// Starts restoring the backups made so far, if any.
    fn fail(&mut self) -> (r: UpgradeAction)
        ensures
            (final(self)@, step_of(r)) == fail_with(old(self)@.backups),
            final(self).from_suite == old(self).from_suite,
            final(self).to_suite == old(self).to_suite,
            r !is Write,
    {
        if self.backups > 0 {
            self.phase = UpgradePhase::Restoring(0);
            UpgradeAction::Restore(0)
        } else {
            self.phase = UpgradePhase::Failed;
            UpgradeAction::Failed
        }
    }
}

} // verus!
