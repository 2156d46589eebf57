//! The laws of the coordination core, proved once and for all over the
//! ghost model. Each holds in every well-formed state, so in every state a
//! [`crate::coordinator::Coordinator`] can reach.

use vstd::prelude::*;

use crate::counting::ccount;
use crate::counting::lemma_occ_of_distinct;
use crate::counting::lemma_occ_push;
use crate::counting::lemma_occ_zero;
use crate::counting::lemma_ocount_at_least_two;
use crate::counting::lemma_wsum_all_zero;
use crate::counting::lemma_wsum_component;
use crate::counting::occ;
use crate::counting::ocount;
use crate::counting::pending;
use crate::counting::reg_count;
use crate::counting::wsum;
use crate::invariants::barrier_wf;
use crate::invariants::signal_wf;
use crate::invariants::spec_run;
use crate::invariants::wf;
use crate::model::measure;
use crate::model::spec_fire;
use crate::model::spec_invoke_once;
use crate::model::spec_resolve;
use crate::model::spec_step;
use crate::model::valid_barrier;
use crate::model::valid_signal;
use crate::model::valid_subtree;
use crate::model::CKey;
use crate::model::Continuation;
use crate::model::Model;

verus! {

/// Resolution is idempotent: resolving a signal a second time — and so any
/// number of further times — has no observable effect at all. The second
/// call returns the very same state.
pub proof fn lemma_resolve_idempotent(m: Model, s: usize)
    ensures
        spec_resolve(spec_resolve(m, s), s) == spec_resolve(m, s),
{
    if valid_signal(m, s) && !m.signals[s as int].protected {
        let m1 = spec_fire(m, s);
        if !m.signals[s as int].resolved {
            assert(m1.signals[s as int].resolved);
            assert(!m1.signals[s as int].protected);
        }
    }
}

/// A signal never un-resolves: one scheduling turn keeps every resolved
/// signal resolved (a turn only ever resolves more signals).
pub proof fn lemma_resolution_monotone_step(m: Model, s: usize)
    requires
        valid_signal(m, s),
        m.signals[s as int].resolved,
    ensures
        valid_signal(spec_step(m), s),
        spec_step(m).signals[s as int].resolved,
{
}

/// A signal never un-resolves under `resolve` either, whichever signal that
/// call is about.
pub proof fn lemma_resolution_monotone_resolve(m: Model, s: usize, s2: usize)
    requires
        valid_signal(m, s),
        m.signals[s as int].resolved,
    ensures
        valid_signal(spec_resolve(m, s2), s),
        spec_resolve(m, s2).signals[s as int].resolved,
{
}

/// Every subscriber registration runs at most once: no two observations
/// carry the same registration identity.
pub proof fn lemma_observations_unique(m: Model)
    requires
        wf(m),
    ensures
        forall|i: int, j: int|
            0 <= i < m.observations.len() && 0 <= j < m.observations.len() && i != j
                ==> (#[trigger] m.observations[i]).reg != (#[trigger] m.observations[j]).reg,
{
    assert forall|i: int, j: int|
        0 <= i < m.observations.len() && 0 <= j < m.observations.len() && i != j
        implies (#[trigger] m.observations[i]).reg != (#[trigger] m.observations[j]).reg by {
        let r = m.observations[i].reg;
        if m.observations[j].reg == r {
            if i < j {
                lemma_ocount_at_least_two(m.observations, i, j, r);
            } else {
                lemma_ocount_at_least_two(m.observations, j, i, r);
            }
            assert(reg_count(m, r) >= 2);
        }
    }
}

/// Once the queue has drained, no subscriber of a resolved signal is still
/// waiting: a continuation registered after resolution was scheduled and
/// has run — with the same argument, the signal, as one registered before.
pub proof fn lemma_idle_resolved_signal_serves_everyone(m: Model, s: usize)
    requires
        wf(m),
        valid_signal(m, s),
        m.signals[s as int].resolved,
    ensures
        m.signals[s as int].waiters.len() == 0,
{
    assert(signal_wf(m, s as int));
}

/// One turn moves a registration's work around but neither loses nor
/// duplicates it: what is pending plus what was observed stays the same.
pub proof fn lemma_step_preserves_reg_count(m: Model, r: usize)
    ensures
        reg_count(spec_step(m), r) == reg_count(m, r),
{
    if m.queue.len() > 0 {
        let c = m.queue[0];
        let rest = Model { queue: m.queue.drop_first(), ..m };
        let kr = CKey::Reg(r);
        crate::counting::lemma_ccount_dequeue(m.queue, kr);
        match c {
            Continuation::Observe { reg, token, signal } => {
                let o = crate::model::Observation { reg, token, signal };
                crate::counting::lemma_ocount_push(m.observations, o, r);
            },
            Continuation::BarrierMember { barrier } => {
                if valid_barrier(rest, barrier) && rest.barriers[barrier as int].remaining >= 1 {
                    let bar = rest.barriers[barrier as int];
                    let rem = (bar.remaining - 1) as nat;
                    let counted = Model {
                        barriers: rest.barriers.update(
                            barrier as int,
                            crate::model::BarrierModel { remaining: rem, ..bar },
                        ),
                        ..rest
                    };
                    if rem == 0 {
                        let out = bar.output;
                        if valid_signal(counted, out) && !counted.signals[out as int].resolved {
                            let sg2 = crate::model::SignalModel {
                                resolved: true,
                                waiters: Seq::empty(),
                                ..counted.signals[out as int]
                            };
                            crate::counting::lemma_wsum_after_waiter_drain(
                                counted.signals,
                                out as int,
                                sg2,
                                kr,
                            );
                            crate::counting::lemma_ccount_add(
                                counted.queue,
                                counted.signals[out as int].waiters,
                                kr,
                            );
                        }
                    }
                }
            },
            Continuation::GuardInvoke { .. } => {
            },
        }
    }
}

/// A turn never parks new work on a signal: once no registration work for
/// `r` waits on any signal, none ever does again (a turn only moves waiters
/// to the queue).
pub proof fn lemma_step_keeps_waiters_clear(m: Model, r: usize)
    requires
        wsum(m.signals, CKey::Reg(r)) == 0,
    ensures
        wsum(spec_step(m).signals, CKey::Reg(r)) == 0,
{
    if m.queue.len() > 0 {
        let c = m.queue[0];
        let rest = Model { queue: m.queue.drop_first(), ..m };
        let kr = CKey::Reg(r);
        if let Continuation::BarrierMember { barrier } = c {
            if valid_barrier(rest, barrier) && rest.barriers[barrier as int].remaining >= 1 {
                let bar = rest.barriers[barrier as int];
                let rem = (bar.remaining - 1) as nat;
                let counted = Model {
                    barriers: rest.barriers.update(
                        barrier as int,
                        crate::model::BarrierModel { remaining: rem, ..bar },
                    ),
                    ..rest
                };
                if rem == 0 {
                    let out = bar.output;
                    if valid_signal(counted, out) && !counted.signals[out as int].resolved {
                        let sg2 = crate::model::SignalModel {
                            resolved: true,
                            waiters: Seq::empty(),
                            ..counted.signals[out as int]
                        };
                        crate::counting::lemma_wsum_after_waiter_drain(
                            counted.signals,
                            out as int,
                            sg2,
                            kr,
                        );
                    }
                }
            }
        }
    }
}

/// A registration whose single piece of work already sits on the queue is
/// observed exactly once when the queue drains.
pub proof fn lemma_queued_observer_runs(m: Model, r: usize)
    requires
        reg_count(m, r) == 1,
        wsum(m.signals, CKey::Reg(r)) == 0,
    ensures
        ocount(spec_run(m).observations, r) == 1,
    decreases measure(m),
{
    if m.queue.len() == 0 {
        assert(ccount(m.queue, CKey::Reg(r)) == 0);
    } else {
        lemma_step_preserves_reg_count(m, r);
        lemma_step_keeps_waiters_clear(m, r);
        crate::invariants::lemma_step_measure(m);
        lemma_queued_observer_runs(spec_step(m), r);
    }
}

/// A subscriber registered after its signal resolved is not lost: when the
/// queue drains, it has run exactly once.
pub proof fn lemma_late_subscriber_runs_exactly_once(m: Model, s: usize, token: u64)
    requires
        wf(m),
        valid_signal(m, s),
        m.signals[s as int].resolved,
        m.next_reg < usize::MAX,
    ensures
        ocount(
            spec_run(crate::model::spec_on_ready(m, s, token)).observations,
            m.next_reg,
        ) == 1,
{
    let r = m.next_reg;
    let kr = CKey::Reg(r);
    let m1 = crate::model::spec_on_ready(m, s, token);
    crate::invariants::lemma_wf_on_ready(m, s, token);
    assert(reg_count(m, r) == 0);
    assert(wsum(m1.signals, kr) == 0);
    lemma_queued_observer_runs(m1, r);
}

/// A subscriber registered before resolution runs exactly once as well,
/// once its signal resolves and the queue drains: together with the late
/// case, registering around a resolution is safe on both sides.
pub proof fn lemma_early_subscriber_runs_exactly_once(m: Model, s: usize, token: u64)
    requires
        wf(m),
        valid_signal(m, s),
        !m.signals[s as int].resolved,
        !m.signals[s as int].protected,
        m.next_reg < usize::MAX,
    ensures
        ocount(
            spec_run(
                spec_resolve(crate::model::spec_on_ready(m, s, token), s),
            ).observations,
            m.next_reg,
        ) == 1,
{
    let r = m.next_reg;
    let kr = CKey::Reg(r);
    let m1 = crate::model::spec_on_ready(m, s, token);
    let c = Continuation::Observe { reg: r, token, signal: s };
    crate::invariants::lemma_wf_on_ready(m, s, token);
    assert(reg_count(m, r) == 0);
    assert(reg_count(m1, r) == 1);
    assert(ccount(m1.queue, kr) == 0);
    assert(ocount(m1.observations, r) == 0);
    assert(wsum(m1.signals, kr) == 1);
    let m2 = spec_resolve(m1, s);
    let moved = m1.signals[s as int].waiters;
    let sg2 = crate::model::SignalModel {
        resolved: true,
        waiters: Seq::empty(),
        ..m1.signals[s as int]
    };
    assert(m2.signals == m1.signals.update(s as int, sg2));
    assert(m2.queue == m1.queue + moved);
    crate::counting::lemma_wsum_after_waiter_drain(m1.signals, s as int, sg2, kr);
    crate::counting::lemma_ccount_add(m1.queue, moved, kr);
    crate::counting::lemma_wsum_component(m1.signals, s as int, kr);
    assert(wsum(m2.signals, kr) + ccount(moved, kr) == 1);
    assert(ccount(m2.queue, kr) == ccount(moved, kr));
    assert(reg_count(m2, r) == 1);
    assert(wsum(m2.signals, kr) == 0) by {
        crate::counting::lemma_ccount_push(m.signals[s as int].waiters, c, kr);
        assert(ccount(m1.signals[s as int].waiters, kr) >= 1);
        assert(ccount(moved, kr) >= 1);
    }
    lemma_queued_observer_runs(m2, r);
}

/// The safety half of the barrier law: a barrier's output is resolved only
/// if every member has resolved — in every reachable state, whatever order
/// resolutions and turns happened in.
pub proof fn lemma_barrier_output_implies_members(m: Model, b: usize)
    requires
        wf(m),
        valid_barrier(m, b),
        m.signals[m.barriers[b as int].output as int].resolved,
    ensures
        forall|i: int|
            0 <= i < m.barriers[b as int].members.len() ==> m.signals[(
            #[trigger] m.barriers[b as int].members[i]) as int].resolved,
{
    let bar = m.barriers[b as int];
    let kb = CKey::Bar(b);
    assert(barrier_wf(m, b as int));
    assert(bar.remaining == 0);
    assert(pending(m, kb) == 0);
    assert forall|i: int|
        0 <= i < bar.members.len() implies m.signals[(#[trigger] bar.members[i]) as int].resolved
        by {
        let x = bar.members[i];
        if !m.signals[x as int].resolved {
            assert(ccount(m.signals[x as int].waiters, kb) == occ(bar.members, x));
            lemma_occ_zero(bar.members, x);
            assert(occ(bar.members, x) >= 1);
            lemma_wsum_component(m.signals, x as int, kb);
            assert(wsum(m.signals, kb) >= 1);
        }
    }
}

/// The liveness half: once every member has resolved and the queue has
/// drained, the output has resolved. Together with the safety half this is
/// the barrier law: with no turn pending, the output is resolved exactly
/// when every member is, regardless of the order they resolved in.
pub proof fn lemma_barrier_fires_when_idle(m: Model, b: usize)
    requires
        wf(m),
        valid_barrier(m, b),
        m.queue.len() == 0,
        forall|i: int|
            0 <= i < m.barriers[b as int].members.len() ==> m.signals[(
            #[trigger] m.barriers[b as int].members[i]) as int].resolved,
    ensures
        m.signals[m.barriers[b as int].output as int].resolved,
{
    let bar = m.barriers[b as int];
    let kb = CKey::Bar(b);
    assert(barrier_wf(m, b as int));
    assert forall|x: int| 0 <= x < m.signals.len() implies ccount(
        (#[trigger] m.signals[x]).waiters,
        kb,
    ) == 0 by {
        assert(signal_wf(m, x));
        if m.signals[x].resolved {
            assert(m.signals[x].waiters.len() == 0);
        } else {
            assert(ccount(m.signals[x as int].waiters, kb) == occ(bar.members, x as usize));
            lemma_occ_zero(bar.members, x as usize);
            if occ(bar.members, x as usize) != 0 {
                let i = choose|i: int|
                    0 <= i < bar.members.len() && bar.members[i] == x as usize;
                assert(m.signals[(bar.members[i]) as int].resolved);
            }
        }
    }
    lemma_wsum_all_zero(m.signals, kb);
    assert(ccount(m.queue, kb) == 0);
    assert(bar.remaining == 0);
}

/// Both halves at once: with the queue drained, a barrier's output is
/// resolved exactly when all of its members are.
pub proof fn lemma_barrier_law(m: Model, b: usize)
    requires
        wf(m),
        valid_barrier(m, b),
        m.queue.len() == 0,
    ensures
        m.signals[m.barriers[b as int].output as int].resolved <==> (forall|i: int|
            0 <= i < m.barriers[b as int].members.len() ==> m.signals[(
            #[trigger] m.barriers[b as int].members[i]) as int].resolved),
{
    if m.signals[m.barriers[b as int].output as int].resolved {
        lemma_barrier_output_implies_members(m, b);
    }
    if forall|i: int|
        0 <= i < m.barriers[b as int].members.len() ==> m.signals[(
        #[trigger] m.barriers[b as int].members[i]) as int].resolved {
        lemma_barrier_fires_when_idle(m, b);
    }
}

/// Asking the guard twice is the same as asking once: the second request
/// changes neither the invocation log nor any subtree — it only leaves a
/// diagnostic.
pub proof fn lemma_guard_idempotent(m: Model, t: usize)
    ensures
        spec_invoke_once(spec_invoke_once(m, t), t).invocations == spec_invoke_once(
            m,
            t,
        ).invocations,
        spec_invoke_once(spec_invoke_once(m, t), t).subtrees == spec_invoke_once(m, t).subtrees,
{
    if valid_subtree(m, t) {
        let m1 = spec_invoke_once(m, t);
        assert(valid_subtree(m1, t));
        if m.subtrees[t as int].alive && !m.subtrees[t as int].called {
            assert(m1.subtrees[t as int].called);
        }
    }
}

/// The wrapped external mutation runs at most once per subtree identity:
/// the invocation log never repeats a subtree, so each occurs at most once.
pub proof fn lemma_invocation_at_most_once(m: Model, t: usize)
    requires
        wf(m),
    ensures
        occ(m.invocations, t) <= 1,
{
    lemma_occ_of_distinct(m.invocations, t);
}

/// A destroyed subtree stays destroyed and its mutation count frozen over a
/// single turn: even when a barrier it belonged to fires, the stale guard
/// call finds it dead and is dropped.
pub proof fn lemma_destroyed_subtree_step(m: Model, t: usize)
    requires
        valid_subtree(m, t),
        !m.subtrees[t as int].alive,
    ensures
        valid_subtree(spec_step(m), t),
        !spec_step(m).subtrees[t as int].alive,
        occ(spec_step(m).invocations, t) == occ(m.invocations, t),
{
    if m.queue.len() > 0 {
        let c = m.queue[0];
        match c {
            Continuation::Observe { .. } => {
            },
            Continuation::BarrierMember { .. } => {
            },
            Continuation::GuardInvoke { subtree } => {
                if subtree != t && valid_subtree(m, subtree) {
                    let st = m.subtrees[subtree as int];
                    if st.alive && !st.called {
                        lemma_occ_push(m.invocations, subtree, t);
                    }
                }
            },
        }
    }
}

/// Destroying a subtree before its barrier fires prevents the wrapped
/// mutation from ever running for that identity: however many turns run
/// afterwards — including the ones in which every joined signal resolves
/// and the barrier fires — the subtree stays dead and its invocation count
/// stays where it was.
pub proof fn lemma_destroyed_subtree_never_invoked(m: Model, t: usize)
    requires
        valid_subtree(m, t),
        !m.subtrees[t as int].alive,
    ensures
        valid_subtree(spec_run(m), t),
        !spec_run(m).subtrees[t as int].alive,
        occ(spec_run(m).invocations, t) == occ(m.invocations, t),
    decreases measure(m),
{
    if m.queue.len() > 0 {
        lemma_destroyed_subtree_step(m, t);
        crate::invariants::lemma_step_measure(m);
        lemma_destroyed_subtree_never_invoked(spec_step(m), t);
    }
}

} // verus!
