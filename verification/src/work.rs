//! The order in which a host performs what the engine asks of it.
use std::collections::VecDeque;
use vstd::prelude::*;

use crate::metrics::{
    begun_effect, ended_effect, touches_disk, EffectOutcome, HostEffect, HostEffectView,
    HostMetrics, MetricsView,
};

verus! {

pub open spec fn effect_views(effects: Seq<HostEffect>) -> Seq<HostEffectView> {
    effects.map_values(|effect: HostEffect| effect@)
}

/// What a host does next.
#[derive(Debug, PartialEq, Eq)]
pub enum WorkStep<'a> {
    /// It performs this.
    Perform(&'a HostEffect),
    /// Nothing is left to perform: it brings its identity in line with the
    /// membership.
    EnforceLifecycle,
}

pub enum WorkStepView {
    Perform(HostEffectView),
    EnforceLifecycle,
}

impl<'a> View for WorkStep<'a> {
    type V = WorkStepView;

    open spec fn view(&self) -> WorkStepView {
        match *self {
            WorkStep::Perform(effect) => WorkStepView::Perform(effect@),
            WorkStep::EnforceLifecycle => WorkStepView::EnforceLifecycle,
        }
    }
}

/// What a host has still to perform. The first of it is under way until it is
/// settled.
#[derive(Debug)]
pub struct WorkQueue {
    pub pending: VecDeque<HostEffect>,
}

impl View for WorkQueue {
    type V = Seq<HostEffectView>;

    open spec fn view(&self) -> Seq<HostEffectView> {
        effect_views(self.pending@)
    }
}

/// What a host does next, by what it has to perform.
pub open spec fn next_work(pending: Seq<HostEffectView>) -> WorkStepView {
    if pending.len() == 0 {
        WorkStepView::EnforceLifecycle
    } else {
        WorkStepView::Perform(pending[0])
    }
}

/// What is pending once the first work was performed and gave rise to more.
pub open spec fn work_after(
    pending: Seq<HostEffectView>,
    follow_ups: Seq<HostEffectView>,
) -> Seq<HostEffectView> {
    pending.skip(1) + follow_ups
}

/// Whether the engine hears of the end of some work, and may ask for more.
pub open spec fn reported(outcome: EffectOutcome) -> bool {
    outcome is Written || outcome is Fsynced || outcome is Bytes
}

impl WorkQueue {
    /// Queues what the engine asks for.
    pub fn new(effects: Vec<HostEffect>) -> (queue: Self)
        ensures
            queue@ == effect_views(effects@),
    {
        let pending = in_order(effects);
        WorkQueue { pending }
    }

    /// Begins the first work, which is counted as begun. An empty queue is no
    /// work: the lifecycle follows.
    pub fn begin(&self, metrics: &mut HostMetrics) -> (step: WorkStep<'_>)
        ensures
            step@ == next_work(self@),
            final(metrics)@ == match next_work(self@) {
                WorkStepView::Perform(effect) => begun_effect(old(metrics)@, effect),
                WorkStepView::EnforceLifecycle => old(metrics)@,
            },
    {
        if self.pending.len() == 0 {
            return WorkStep::EnforceLifecycle;
        }
        let effect = &self.pending[0];
        assert(effect@ == self@[0]);
        metrics.execute_effects(effect);
        WorkStep::Perform(effect)
    }

    /// Settles the first work, and queues what the engine asks for on hearing that
    /// it is done.
    pub fn settle(&mut self, follow_ups: Vec<HostEffect>)
        requires
            old(self)@.len() > 0,
        ensures
            final(self)@ == work_after(old(self)@, effect_views(follow_ups@)),
    {
        let ghost before = self.pending@;
        let ghost all = follow_ups@;
        let mut rest = in_order(follow_ups);
        let first = self.pending.pop_front();
        assert(first is Some);
        self.pending.append(&mut rest);
        assert(self@ =~= effect_views(before).skip(1) + effect_views(all));
    }
}

fn in_order(effects: Vec<HostEffect>) -> (queue: VecDeque<HostEffect>)
    ensures
        queue@ == effects@,
{
    let ghost all = effects@;
    let mut left = effects;
    let mut queue: VecDeque<HostEffect> = VecDeque::new();
    while left.len() > 0
        invariant
            all =~= left@ + queue@,
        decreases left@.len(),
    {
        let ghost before = left@;
        let ghost taken = queue@;
        if let Some(effect) = left.pop() {
            queue.push_front(effect);
            assert(queue@ =~= seq![before.last()] + taken);
        }
    }
    assert(queue@ =~= all);
    queue
}

/// What is pending once `n` pieces of work were performed, where the piece at
/// `k` gave rise to `follow_ups[k]`.
pub open spec fn pending_after(
    asked: Seq<HostEffectView>,
    follow_ups: Seq<Seq<HostEffectView>>,
    n: nat,
) -> Seq<HostEffectView>
    decreases n,
{
    if n == 0 {
        asked
    } else {
        work_after(pending_after(asked, follow_ups, (n - 1) as nat), follow_ups[n - 1])
    }
}

/// What was asked for in all by the time that `n` pieces of work were performed,
/// in the order in which it was asked for.
pub open spec fn asked_for(
    asked: Seq<HostEffectView>,
    follow_ups: Seq<Seq<HostEffectView>>,
    n: nat,
) -> Seq<HostEffectView>
    decreases n,
{
    if n == 0 {
        asked
    } else {
        asked_for(asked, follow_ups, (n - 1) as nat) + follow_ups[n - 1]
    }
}

/// Work is performed in the order in which it was asked for: the piece that comes
/// next is the first that was not performed yet, what follows from a piece comes
/// after all that was pending before, and the lifecycle comes once everything that
/// was asked for is performed.
pub proof fn law_work_is_done_in_order(
    asked: Seq<HostEffectView>,
    follow_ups: Seq<Seq<HostEffectView>>,
    n: nat,
)
    requires
        forall|k: nat| k < n ==> next_work(#[trigger] pending_after(asked, follow_ups, k)) is Perform,
    ensures
        pending_after(asked, follow_ups, n) == asked_for(asked, follow_ups, n).skip(n as int),
        n <= asked_for(asked, follow_ups, n).len(),
        next_work(pending_after(asked, follow_ups, n)) == if n == asked_for(
            asked,
            follow_ups,
            n,
        ).len() {
            WorkStepView::EnforceLifecycle
        } else {
            WorkStepView::Perform(asked_for(asked, follow_ups, n)[n as int])
        },
    decreases n,
{
    if n > 0 {
        let m = (n - 1) as nat;
        law_work_is_done_in_order(asked, follow_ups, m);
        let before = pending_after(asked, follow_ups, m);
        assert(next_work(before) is Perform);
        assert(before.len() > 0);
        assert(pending_after(asked, follow_ups, n) =~= asked_for(asked, follow_ups, n).skip(
            n as int,
        ));
    } else {
        assert(asked =~= asked.skip(0));
    }
}

/// The engine hears of the end of some work exactly where it touched the disk and
/// the disk held, under the number of that work.
pub proof fn law_only_the_disk_reports(
    metrics: MetricsView,
    effect: HostEffectView,
    succeeded: bool,
)
    ensures
        ({
            let outcome = ended_effect(metrics, effect, succeeded).1;
            &&& reported(outcome) <==> succeeded && touches_disk(effect)
            &&& outcome matches EffectOutcome::Written { id: heard } ==> (
            effect matches HostEffectView::DiskWrite { id, .. } && heard == id)
            &&& outcome matches EffectOutcome::Bytes { id: heard } ==> (
            effect matches HostEffectView::DiskRead { id, .. } && heard == id)
            &&& outcome matches EffectOutcome::Fsynced { id: heard } ==> match effect {
                HostEffectView::DiskFsync { id, .. } => heard == id,
                HostEffectView::DiskRename { id, .. } => heard == id,
                HostEffectView::DiskSyncDir { id } => heard == id,
                _ => false,
            }
        }),
{
}

} // verus!
