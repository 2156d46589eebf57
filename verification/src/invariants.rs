//! Well-formedness of the ghost model and its preservation by every
//! transition.
//!
//! `wf` ties the executable bookkeeping to the meaning of the model: a
//! resolved signal keeps no waiters, a barrier's `remaining` count equals the
//! number of its membership continuations still pending, a barrier's output
//! is resolved exactly when that count reached zero, every subscriber
//! registration is pending or recorded at most once, and the guard's
//! invocation log never repeats a subtree. The laws in [`crate::laws`] are
//! consequences of these facts.

use vstd::prelude::*;

use crate::counting::ccount;
use crate::counting::cmatch;
use crate::counting::lemma_ccount_add;
use crate::counting::lemma_ccount_push;
use crate::counting::lemma_load_update;
use crate::counting::lemma_occ_zero;
use crate::counting::lemma_ocount_push;
use crate::counting::lemma_wsum_all_zero;
use crate::counting::lemma_wsum_push;
use crate::counting::occ;
use crate::counting::ocount;
use crate::counting::pending;
use crate::counting::reg_count;
use crate::counting::wsum;
use crate::model::hydration_signal;
use crate::model::measure;
use crate::model::spec_create_signal;
use crate::model::spec_create_subtree;
use crate::model::spec_defer_invoke;
use crate::model::spec_destroy_subtree;
use crate::model::spec_fire;
use crate::model::spec_init;
use crate::model::spec_invoke_once;
use crate::model::spec_invoke_when;
use crate::model::spec_join;
use crate::model::spec_mutate_unguarded;
use crate::model::spec_on_ready;
use crate::model::spec_register_member;
use crate::model::spec_register_upto;
use crate::model::spec_resolve;
use crate::model::spec_step;
use crate::model::valid_barrier;
use crate::model::valid_signal;
use crate::model::valid_subtree;
use crate::model::waiter_load;
use crate::model::BarrierModel;
use crate::model::CKey;
use crate::model::Continuation;
use crate::model::Model;
use crate::model::Observation;
use crate::model::Owner;
use crate::model::SignalModel;
use crate::model::SubtreeModel;

verus! {

/// Every index a continuation refers to exists.
pub open spec fn cont_ok(m: Model, c: Continuation) -> bool {
    match c {
        Continuation::Observe { reg, token: _, signal } => signal < m.signals.len() && reg
            < m.next_reg,
        Continuation::BarrierMember { barrier } => barrier < m.barriers.len(),
        Continuation::GuardInvoke { subtree } => subtree < m.subtrees.len(),
    }
}

pub open spec fn conts_ok(m: Model, cs: Seq<Continuation>) -> bool {
    forall|i: int| 0 <= i < cs.len() ==> cont_ok(m, #[trigger] cs[i])
}

/// A resolved signal keeps no waiters (they were all scheduled), and every
/// waiter refers to existing state.
pub open spec fn signal_wf(m: Model, s: int) -> bool {
    let sg = m.signals[s];
    &&& (sg.resolved ==> sg.waiters.len() == 0)
    &&& conts_ok(m, sg.waiters)
}

/// The barrier bookkeeping means what it says.
pub open spec fn barrier_wf(m: Model, b: int) -> bool {
    let bar = m.barriers[b];
    &&& bar.output < m.signals.len()
    &&& m.signals[bar.output as int].protected
    &&& (forall|i: int|
        0 <= i < bar.members.len() ==> (#[trigger] bar.members[i]) < m.signals.len())
    &&& bar.remaining == pending(m, CKey::Bar(b as usize))
    &&& (bar.remaining == 0 <==> m.signals[bar.output as int].resolved)
    &&& (forall|s: usize|
        s < m.signals.len() && !m.signals[s as int].resolved ==> ccount(
            #[trigger] m.signals[s as int].waiters,
            CKey::Bar(b as usize),
        ) == occ(bar.members, s))
}

/// Ownership follows the guard: a live subtree belongs to the renderer until
/// the mutation ran, then to the external mutator; a destroyed one to nobody.
pub open spec fn subtree_wf(m: Model, t: int) -> bool {
    let st = m.subtrees[t];
    &&& st.mount_signal < m.signals.len()
    &&& !m.signals[st.mount_signal as int].protected
    &&& (st.alive && st.called ==> st.owner == Owner::External)
    &&& (st.alive && !st.called ==> st.owner == Owner::Renderer)
    &&& (!st.alive ==> st.owner == Owner::Unowned)
}

pub open spec fn observation_ok(m: Model, o: Observation) -> bool {
    o.signal < m.signals.len() && o.reg < m.next_reg
}

pub open spec fn wf(m: Model) -> bool {
    &&& m.signals.len() <= usize::MAX
    &&& m.barriers.len() <= usize::MAX
    &&& m.subtrees.len() <= usize::MAX
    &&& 1 <= m.signals.len()
    &&& !m.signals[hydration_signal() as int].protected
    &&& (forall|s: int| 0 <= s < m.signals.len() ==> #[trigger] signal_wf(m, s))
    &&& conts_ok(m, m.queue)
    &&& (forall|b: int| 0 <= b < m.barriers.len() ==> #[trigger] barrier_wf(m, b))
    &&& (forall|b1: int, b2: int|
        0 <= b1 < m.barriers.len() && 0 <= b2 < m.barriers.len() && b1 != b2
            ==> #[trigger] m.barriers[b1].output != #[trigger] m.barriers[b2].output)
    &&& (forall|i: int|
        0 <= i < m.invocations.len() ==> (#[trigger] m.invocations[i]) < m.subtrees.len()
            && m.subtrees[m.invocations[i] as int].called)
    &&& (forall|i: int, j: int|
        0 <= i < m.invocations.len() && 0 <= j < m.invocations.len() && i != j
            ==> #[trigger] m.invocations[i] != #[trigger] m.invocations[j])
    &&& (forall|t: int| 0 <= t < m.subtrees.len() ==> #[trigger] subtree_wf(m, t))
    &&& (forall|r: usize|
        (#[trigger] reg_count(m, r)) <= 1 && (m.next_reg <= r ==> reg_count(m, r) == 0))
    &&& (forall|i: int|
        0 <= i < m.observations.len() ==> observation_ok(m, #[trigger] m.observations[i]))
}

pub proof fn lemma_wf_init()
    ensures
        wf(spec_init()),
{
    let m = spec_init();
    assert forall|s: int| 0 <= s < m.signals.len() implies #[trigger] signal_wf(m, s) by {
        assert(m.signals[s].waiters.len() == 0);
    }
    assert forall|r: usize| (#[trigger] reg_count(m, r)) == 0 by {
        assert(m.signals.last() == m.signals[0]);
        assert(ccount(m.signals[0].waiters, CKey::Reg(r)) == 0);
        assert(m.signals.drop_last() =~= Seq::<SignalModel>::empty());
        assert(wsum(Seq::<SignalModel>::empty(), CKey::Reg(r)) == 0);
        assert(wsum(m.signals, CKey::Reg(r)) == 0);
        assert(ccount(m.queue, CKey::Reg(r)) == 0);
        assert(ocount(m.observations, r) == 0);
    }
}

/// An unguarded mutation touches only the mutation log, the diagnostics and
/// the fatal flag; well-formedness does not speak about those.
pub proof fn lemma_wf_mutate_unguarded(m: Model, t: usize, phases_agree: bool)
    requires
        wf(m),
    ensures
        wf(spec_mutate_unguarded(m, t, phases_agree)),
{
    let m2 = spec_mutate_unguarded(m, t, phases_agree);
    assert(m2.signals == m.signals);
    assert(m2.queue == m.queue);
    assert(m2.barriers == m.barriers);
    assert(m2.subtrees == m.subtrees);
    assert(m2.observations == m.observations);
    assert(m2.invocations == m.invocations);
    assert forall|s: int| 0 <= s < m2.signals.len() implies #[trigger] signal_wf(m2, s) by {
        assert(signal_wf(m, s));
    }
    assert forall|b: int| 0 <= b < m2.barriers.len() implies #[trigger] barrier_wf(m2, b) by {
        assert(barrier_wf(m, b));
    }
    assert forall|t2: int| 0 <= t2 < m2.subtrees.len() implies #[trigger] subtree_wf(m2, t2) by {
        assert(subtree_wf(m, t2));
    }
    assert forall|r: usize|
        (#[trigger] reg_count(m2, r)) <= 1 && (m2.next_reg <= r ==> reg_count(m2, r) == 0) by {
        assert(reg_count(m2, r) == reg_count(m, r));
    }
}

/// Destroying a subtree releases ownership and invalidates nothing counted.
pub proof fn lemma_wf_destroy_subtree(m: Model, t: usize)
    requires
        wf(m),
    ensures
        wf(spec_destroy_subtree(m, t)),
{
    let m2 = spec_destroy_subtree(m, t);
    if valid_subtree(m, t) {
        assert(m2.signals == m.signals);
        assert(m2.queue == m.queue);
        assert(m2.barriers == m.barriers);
        assert(m2.observations == m.observations);
        assert forall|s: int| 0 <= s < m2.signals.len() implies #[trigger] signal_wf(m2, s) by {
            assert(signal_wf(m, s));
        }
        assert forall|b: int| 0 <= b < m2.barriers.len() implies #[trigger] barrier_wf(m2, b) by {
            assert(barrier_wf(m, b));
        }
        assert forall|t2: int| 0 <= t2 < m2.subtrees.len() implies #[trigger] subtree_wf(
            m2,
            t2,
        ) by {
            assert(subtree_wf(m, t2));
        }
        assert forall|i: int|
            0 <= i < m2.invocations.len() implies (#[trigger] m2.invocations[i])
            < m2.subtrees.len() && m2.subtrees[m2.invocations[i] as int].called by {
            assert(m.invocations[i] < m.subtrees.len());
        }
        assert forall|r: usize|
            (#[trigger] reg_count(m2, r)) <= 1 && (m2.next_reg <= r ==> reg_count(m2, r)
                == 0) by {
            assert(reg_count(m2, r) == reg_count(m, r));
        }
    }
}

/// Creating a signal only adds a fresh, unresolved, waiter-free entry.
pub proof fn lemma_wf_create_signal(m: Model, protected: bool)
    requires
        wf(m),
        m.signals.len() < usize::MAX,
    ensures
        wf(spec_create_signal(m, protected)),
{
    let m2 = spec_create_signal(m, protected);
    let fresh = SignalModel { resolved: false, protected, waiters: Seq::empty() };
    assert(m2.signals == m.signals.push(fresh));
    assert(m2.signals.len() == m.signals.len() + 1);
    assert(m2.signals[0] == m.signals[0]);
    assert forall|k: CKey| #[trigger] pending(m2, k) == pending(m, k) by {
        crate::counting::lemma_wsum_push(m.signals, fresh, k);
        assert(ccount(fresh.waiters, k) == 0);
    }
    assert forall|s: int| 0 <= s < m2.signals.len() implies #[trigger] signal_wf(m2, s) by {
        if s < m.signals.len() {
            assert(signal_wf(m, s));
            assert(m2.signals[s] == m.signals[s]);
            assert forall|i: int|
                0 <= i < m2.signals[s].waiters.len() implies cont_ok(
                m2,
                #[trigger] m2.signals[s].waiters[i],
            ) by {
                assert(cont_ok(m, m.signals[s].waiters[i]));
            }
        } else {
            assert(m2.signals[s] == fresh);
            assert(m2.signals[s].waiters.len() == 0);
        }
    }
    assert forall|i: int| 0 <= i < m2.queue.len() implies cont_ok(m2, #[trigger] m2.queue[i]) by {
        assert(cont_ok(m, m.queue[i]));
    }
    assert forall|b: int| 0 <= b < m2.barriers.len() implies #[trigger] barrier_wf(m2, b) by {
        assert(barrier_wf(m, b));
        let bar = m.barriers[b];
        assert(m2.signals[bar.output as int] == m.signals[bar.output as int]);
        assert forall|s: usize|
            s < m2.signals.len() && !m2.signals[s as int].resolved implies ccount(
            #[trigger] m2.signals[s as int].waiters,
            CKey::Bar(b as usize),
        ) == occ(bar.members, s) by {
            if s < m.signals.len() {
                assert(m2.signals[s as int] == m.signals[s as int]);
            } else {
                assert(m2.signals[s as int] == fresh);
                assert(ccount(fresh.waiters, CKey::Bar(b as usize)) == 0);
                assert forall|i: int| 0 <= i < bar.members.len() implies bar.members[i] != s by {
                    assert(bar.members[i] < m.signals.len());
                }
                lemma_occ_zero(bar.members, s);
            }
        }
    }
    assert forall|t: int| 0 <= t < m2.subtrees.len() implies #[trigger] subtree_wf(m2, t) by {
        assert(subtree_wf(m, t));
        assert(m2.signals[m.subtrees[t].mount_signal as int]
            == m.signals[m.subtrees[t].mount_signal as int]);
    }
    assert forall|r: usize|
        (#[trigger] reg_count(m2, r)) <= 1 && (m2.next_reg <= r ==> reg_count(m2, r) == 0) by {
        assert(pending(m2, CKey::Reg(r)) == pending(m, CKey::Reg(r)));
        assert(reg_count(m2, r) == reg_count(m, r));
    }
    assert forall|i: int|
        0 <= i < m2.observations.len() implies observation_ok(m2, #[trigger] m2.observations[i]) by {
        assert(observation_ok(m, m.observations[i]));
    }
}

/// Resolving an ordinary signal marks it resolved and schedules its waiters;
/// every pending count is preserved because the waiters only move.
pub proof fn lemma_wf_resolve(m: Model, s: usize)
    requires
        wf(m),
    ensures
        wf(spec_resolve(m, s)),
{
    if valid_signal(m, s) && !m.signals[s as int].protected && !m.signals[s as int].resolved {
        let m2 = spec_fire(m, s);
        let moved = m.signals[s as int].waiters;
        let sg2 = SignalModel { resolved: true, waiters: Seq::empty(), ..m.signals[s as int] };
        assert(m2.signals == m.signals.update(s as int, sg2));
        assert(m2.queue == m.queue + moved);
        assert(m2.signals[0].protected == m.signals[0].protected);
        assert forall|k: CKey| #[trigger] pending(m2, k) == pending(m, k) by {
            crate::counting::lemma_wsum_after_waiter_drain(m.signals, s as int, sg2, k);
            crate::counting::lemma_ccount_add(m.queue, moved, k);
            assert(wsum(m2.signals, k) + ccount(moved, k) == wsum(m.signals, k));
            assert(ccount(m2.queue, k) == ccount(m.queue, k) + ccount(moved, k));
        }
        assert(signal_wf(m, s as int));
        assert forall|x: int| 0 <= x < m2.signals.len() implies #[trigger] signal_wf(m2, x) by {
            assert(signal_wf(m, x));
            if x == s as int {
                assert(m2.signals[x].waiters.len() == 0);
            } else {
                assert(m2.signals[x] == m.signals[x]);
                assert forall|i: int|
                    0 <= i < m2.signals[x].waiters.len() implies cont_ok(
                    m2,
                    #[trigger] m2.signals[x].waiters[i],
                ) by {
                    assert(cont_ok(m, m.signals[x].waiters[i]));
                }
            }
        }
        assert forall|i: int|
            0 <= i < m2.queue.len() implies cont_ok(m2, #[trigger] m2.queue[i]) by {
            if i < m.queue.len() {
                assert(m2.queue[i] == m.queue[i]);
                assert(cont_ok(m, m.queue[i]));
            } else {
                assert(m2.queue[i] == moved[i - m.queue.len()]);
                assert(cont_ok(m, moved[i - m.queue.len()]));
            }
        }
        assert forall|b: int| 0 <= b < m2.barriers.len() implies #[trigger] barrier_wf(m2, b) by {
            assert(barrier_wf(m, b));
            let bar = m.barriers[b];
            assert(bar.output != s);
            assert(m2.signals[bar.output as int] == m.signals[bar.output as int]);
            assert forall|x: usize|
                x < m2.signals.len() && !m2.signals[x as int].resolved implies ccount(
                #[trigger] m2.signals[x as int].waiters,
                CKey::Bar(b as usize),
            ) == occ(bar.members, x) by {
                assert(x != s);
                assert(m2.signals[x as int] == m.signals[x as int]);
            }
        }
        assert forall|t: int| 0 <= t < m2.subtrees.len() implies #[trigger] subtree_wf(m2, t) by {
            assert(subtree_wf(m, t));
            let mnt = m.subtrees[t].mount_signal;
            assert(m2.signals[mnt as int].protected == m.signals[mnt as int].protected);
        }
        assert forall|r: usize|
            (#[trigger] reg_count(m2, r)) <= 1 && (m2.next_reg <= r ==> reg_count(m2, r)
                == 0) by {
            assert(pending(m2, CKey::Reg(r)) == pending(m, CKey::Reg(r)));
            assert(reg_count(m2, r) == reg_count(m, r));
        }
        assert forall|i: int|
            0 <= i < m2.observations.len() implies observation_ok(
            m2,
            #[trigger] m2.observations[i],
        ) by {
            assert(observation_ok(m, m.observations[i]));
        }
    }
}

/// Common shape: a continuation `c` that counts for no barrier and no
/// subscriber registration is pushed either on the queue (signal already
/// resolved) or on the waiters of an unresolved signal. Used for the guard
/// registrations.
proof fn lemma_wf_register_neutral(m: Model, s: usize, c: Continuation)
    requires
        wf(m),
        valid_signal(m, s),
        cont_ok(m, c),
        forall|k: CKey| !(#[trigger] cmatch(c, k)),
        c matches Continuation::GuardInvoke { .. },
    ensures
        wf(
            if m.signals[s as int].resolved {
                Model { queue: m.queue.push(c), ..m }
            } else {
                Model {
                    signals: m.signals.update(
                        s as int,
                        SignalModel {
                            waiters: m.signals[s as int].waiters.push(c),
                            ..m.signals[s as int]
                        },
                    ),
                    ..m
                }
            },
        ),
{
    if m.signals[s as int].resolved {
        let m2 = Model { queue: m.queue.push(c), ..m };
        assert forall|k: CKey| #[trigger] pending(m2, k) == pending(m, k) by {
            crate::counting::lemma_ccount_push(m.queue, c, k);
            assert(!cmatch(c, k));
        }
        assert forall|x: int| 0 <= x < m2.signals.len() implies #[trigger] signal_wf(m2, x) by {
            assert(signal_wf(m, x));
            assert forall|i: int|
                0 <= i < m2.signals[x].waiters.len() implies cont_ok(
                m2,
                #[trigger] m2.signals[x].waiters[i],
            ) by {
                assert(cont_ok(m, m.signals[x].waiters[i]));
            }
        }
        assert forall|i: int|
            0 <= i < m2.queue.len() implies cont_ok(m2, #[trigger] m2.queue[i]) by {
            if i < m.queue.len() {
                assert(m2.queue[i] == m.queue[i]);
                assert(cont_ok(m, m.queue[i]));
            } else {
                assert(m2.queue[i] == c);
            }
        }
        assert forall|b: int| 0 <= b < m2.barriers.len() implies #[trigger] barrier_wf(m2, b) by {
            assert(barrier_wf(m, b));
            assert forall|x: usize|
                x < m2.signals.len() && !m2.signals[x as int].resolved implies ccount(
                #[trigger] m2.signals[x as int].waiters,
                CKey::Bar(b as usize),
            ) == occ(m.barriers[b].members, x) by {
                assert(m2.signals[x as int] == m.signals[x as int]);
            }
        }
        assert forall|t: int| 0 <= t < m2.subtrees.len() implies #[trigger] subtree_wf(m2, t) by {
            assert(subtree_wf(m, t));
        }
        assert forall|r: usize|
            (#[trigger] reg_count(m2, r)) <= 1 && (m2.next_reg <= r ==> reg_count(m2, r)
                == 0) by {
            assert(pending(m2, CKey::Reg(r)) == pending(m, CKey::Reg(r)));
            assert(reg_count(m2, r) == reg_count(m, r));
        }
        assert forall|i: int|
            0 <= i < m2.observations.len() implies observation_ok(
            m2,
            #[trigger] m2.observations[i],
        ) by {
            assert(observation_ok(m, m.observations[i]));
        }
    } else {
        let sg2 = SignalModel {
            waiters: m.signals[s as int].waiters.push(c),
            ..m.signals[s as int]
        };
        let m2 = Model { signals: m.signals.update(s as int, sg2), ..m };
        assert forall|k: CKey| #[trigger] pending(m2, k) == pending(m, k) by {
            crate::counting::lemma_wsum_after_waiter_push(m.signals, s as int, c, k);
            assert(!cmatch(c, k));
        }
        assert(signal_wf(m, s as int));
        assert forall|x: int| 0 <= x < m2.signals.len() implies #[trigger] signal_wf(m2, x) by {
            assert(signal_wf(m, x));
            if x == s as int {
                assert forall|i: int|
                    0 <= i < m2.signals[x].waiters.len() implies cont_ok(
                    m2,
                    #[trigger] m2.signals[x].waiters[i],
                ) by {
                    if i < m.signals[x].waiters.len() {
                        assert(m2.signals[x].waiters[i] == m.signals[x].waiters[i]);
                        assert(cont_ok(m, m.signals[x].waiters[i]));
                    } else {
                        assert(m2.signals[x].waiters[i] == c);
                    }
                }
            } else {
                assert(m2.signals[x] == m.signals[x]);
                assert forall|i: int|
                    0 <= i < m2.signals[x].waiters.len() implies cont_ok(
                    m2,
                    #[trigger] m2.signals[x].waiters[i],
                ) by {
                    assert(cont_ok(m, m.signals[x].waiters[i]));
                }
            }
        }
        assert forall|i: int|
            0 <= i < m2.queue.len() implies cont_ok(m2, #[trigger] m2.queue[i]) by {
            assert(cont_ok(m, m.queue[i]));
        }
        assert forall|b: int| 0 <= b < m2.barriers.len() implies #[trigger] barrier_wf(m2, b) by {
            assert(barrier_wf(m, b));
            let k = CKey::Bar(b as usize);
            assert(m2.signals[m.barriers[b].output as int].protected
                == m.signals[m.barriers[b].output as int].protected);
            assert(m2.signals[m.barriers[b].output as int].resolved
                == m.signals[m.barriers[b].output as int].resolved);
            assert forall|x: usize|
                x < m2.signals.len() && !m2.signals[x as int].resolved implies ccount(
                #[trigger] m2.signals[x as int].waiters,
                k,
            ) == occ(m.barriers[b].members, x) by {
                if x == s {
                    crate::counting::lemma_ccount_push(m.signals[s as int].waiters, c, k);
                    assert(!cmatch(c, k));
                } else {
                    assert(m2.signals[x as int] == m.signals[x as int]);
                }
            }
        }
        assert forall|t: int| 0 <= t < m2.subtrees.len() implies #[trigger] subtree_wf(m2, t) by {
            assert(subtree_wf(m, t));
            let mnt = m.subtrees[t].mount_signal;
            assert(m2.signals[mnt as int].protected == m.signals[mnt as int].protected);
        }
        assert forall|r: usize|
            (#[trigger] reg_count(m2, r)) <= 1 && (m2.next_reg <= r ==> reg_count(m2, r)
                == 0) by {
            assert(pending(m2, CKey::Reg(r)) == pending(m, CKey::Reg(r)));
            assert(reg_count(m2, r) == reg_count(m, r));
        }
        assert forall|i: int|
            0 <= i < m2.observations.len() implies observation_ok(
            m2,
            #[trigger] m2.observations[i],
        ) by {
            assert(observation_ok(m, m.observations[i]));
        }
    }
}

/// Registering a subscriber keeps every invariant, and the fresh
/// registration is pending exactly once afterwards: a late subscriber is
/// scheduled, never dropped, and no registration is duplicated.
pub proof fn lemma_wf_on_ready(m: Model, s: usize, token: u64)
    requires
        wf(m),
    ensures
        wf(spec_on_ready(m, s, token)),
        valid_signal(m, s) && m.next_reg < usize::MAX ==> reg_count(
            spec_on_ready(m, s, token),
            m.next_reg,
        ) == 1,
{
    if valid_signal(m, s) && m.next_reg < usize::MAX {
        let c = Continuation::Observe { reg: m.next_reg, token, signal: s };
        let m2 = spec_on_ready(m, s, token);
        assert(m2.observations == m.observations);
        if m.signals[s as int].resolved {
            assert(m2.signals == m.signals);
            assert forall|k: CKey|
                #[trigger] pending(m2, k) == pending(m, k) + (if cmatch(c, k) {
                    1nat
                } else {
                    0nat
                }) by {
                crate::counting::lemma_ccount_push(m.queue, c, k);
            }
        } else {
            let sg2 = SignalModel {
                waiters: m.signals[s as int].waiters.push(c),
                ..m.signals[s as int]
            };
            assert(m2.signals == m.signals.update(s as int, sg2));
            assert(m2.queue == m.queue);
            assert forall|k: CKey|
                #[trigger] pending(m2, k) == pending(m, k) + (if cmatch(c, k) {
                    1nat
                } else {
                    0nat
                }) by {
                crate::counting::lemma_wsum_after_waiter_push(m.signals, s as int, c, k);
            }
        }
        assert forall|r: usize|
            #[trigger] reg_count(m2, r) == reg_count(m, r) + (if r == m.next_reg {
                1nat
            } else {
                0nat
            }) by {
            assert(pending(m2, CKey::Reg(r)) == pending(m, CKey::Reg(r)) + (if cmatch(
                c,
                CKey::Reg(r),
            ) {
                1nat
            } else {
                0nat
            }));
        }
        assert(reg_count(m, m.next_reg) == 0);
        assert(reg_count(m2, m.next_reg) == 1);
        assert(m2.signals[0].protected == m.signals[0].protected);
        assert forall|x: int| 0 <= x < m2.signals.len() implies #[trigger] signal_wf(m2, x) by {
            assert(signal_wf(m, x));
            if !m.signals[s as int].resolved && x == s as int {
                assert forall|i: int|
                    0 <= i < m2.signals[x].waiters.len() implies cont_ok(
                    m2,
                    #[trigger] m2.signals[x].waiters[i],
                ) by {
                    if i < m.signals[x].waiters.len() {
                        assert(m2.signals[x].waiters[i] == m.signals[x].waiters[i]);
                        assert(cont_ok(m, m.signals[x].waiters[i]));
                    } else {
                        assert(m2.signals[x].waiters[i] == c);
                    }
                }
            } else {
                assert(m2.signals[x] == m.signals[x]);
                assert forall|i: int|
                    0 <= i < m2.signals[x].waiters.len() implies cont_ok(
                    m2,
                    #[trigger] m2.signals[x].waiters[i],
                ) by {
                    assert(cont_ok(m, m.signals[x].waiters[i]));
                }
            }
        }
        assert forall|i: int|
            0 <= i < m2.queue.len() implies cont_ok(m2, #[trigger] m2.queue[i]) by {
            if i < m.queue.len() {
                assert(m2.queue[i] == m.queue[i]);
                assert(cont_ok(m, m.queue[i]));
            } else {
                assert(m2.queue[i] == c);
            }
        }
        assert forall|b: int| 0 <= b < m2.barriers.len() implies #[trigger] barrier_wf(m2, b) by {
            assert(barrier_wf(m, b));
            let k = CKey::Bar(b as usize);
            assert(pending(m2, k) == pending(m, k));
            assert(m2.signals[m.barriers[b].output as int].protected
                == m.signals[m.barriers[b].output as int].protected);
            assert(m2.signals[m.barriers[b].output as int].resolved
                == m.signals[m.barriers[b].output as int].resolved);
            assert forall|x: usize|
                x < m2.signals.len() && !m2.signals[x as int].resolved implies ccount(
                #[trigger] m2.signals[x as int].waiters,
                k,
            ) == occ(m.barriers[b].members, x) by {
                if !m.signals[s as int].resolved && x == s {
                    crate::counting::lemma_ccount_push(m.signals[s as int].waiters, c, k);
                    assert(!cmatch(c, k));
                } else {
                    assert(m2.signals[x as int] == m.signals[x as int]);
                }
            }
        }
        assert forall|t: int| 0 <= t < m2.subtrees.len() implies #[trigger] subtree_wf(m2, t) by {
            assert(subtree_wf(m, t));
            let mnt = m.subtrees[t].mount_signal;
            assert(m2.signals[mnt as int].protected == m.signals[mnt as int].protected);
        }
        assert forall|r: usize|
            (#[trigger] reg_count(m2, r)) <= 1 && (m2.next_reg <= r ==> reg_count(m2, r)
                == 0) by {
            assert(reg_count(m, r) <= 1);
            if r != m.next_reg {
                assert(reg_count(m2, r) == reg_count(m, r));
            }
        }
        assert forall|i: int|
            0 <= i < m2.observations.len() implies observation_ok(
            m2,
            #[trigger] m2.observations[i],
        ) by {
            assert(observation_ok(m, m.observations[i]));
        }
    }
}

pub proof fn lemma_wf_invoke_when(m: Model, s: usize, t: usize)
    requires
        wf(m),
    ensures
        wf(spec_invoke_when(m, s, t)),
{
    if valid_signal(m, s) && valid_subtree(m, t) {
        let c = Continuation::GuardInvoke { subtree: t };
        assert forall|k: CKey| !(#[trigger] cmatch(c, k)) by {}
        lemma_wf_register_neutral(m, s, c);
        assert(spec_invoke_when(m, s, t) == (if m.signals[s as int].resolved {
            Model { queue: m.queue.push(c), ..m }
        } else {
            Model {
                signals: m.signals.update(
                    s as int,
                    SignalModel {
                        waiters: m.signals[s as int].waiters.push(c),
                        ..m.signals[s as int]
                    },
                ),
                ..m
            }
        }));
    }
}

pub proof fn lemma_wf_defer_invoke(m: Model, t: usize)
    requires
        wf(m),
    ensures
        wf(spec_defer_invoke(m, t)),
{
    if valid_subtree(m, t) {
        let c = Continuation::GuardInvoke { subtree: t };
        let m2 = spec_defer_invoke(m, t);
        assert forall|k: CKey| #[trigger] pending(m2, k) == pending(m, k) by {
            crate::counting::lemma_ccount_push(m.queue, c, k);
            assert(!cmatch(c, k));
        }
        assert forall|x: int| 0 <= x < m2.signals.len() implies #[trigger] signal_wf(m2, x) by {
            assert(signal_wf(m, x));
            assert forall|i: int|
                0 <= i < m2.signals[x].waiters.len() implies cont_ok(
                m2,
                #[trigger] m2.signals[x].waiters[i],
            ) by {
                assert(cont_ok(m, m.signals[x].waiters[i]));
            }
        }
        assert forall|i: int|
            0 <= i < m2.queue.len() implies cont_ok(m2, #[trigger] m2.queue[i]) by {
            if i < m.queue.len() {
                assert(m2.queue[i] == m.queue[i]);
                assert(cont_ok(m, m.queue[i]));
            } else {
                assert(m2.queue[i] == c);
            }
        }
        assert forall|b: int| 0 <= b < m2.barriers.len() implies #[trigger] barrier_wf(m2, b) by {
            assert(barrier_wf(m, b));
            assert forall|x: usize|
                x < m2.signals.len() && !m2.signals[x as int].resolved implies ccount(
                #[trigger] m2.signals[x as int].waiters,
                CKey::Bar(b as usize),
            ) == occ(m.barriers[b].members, x) by {
                assert(m2.signals[x as int] == m.signals[x as int]);
            }
        }
        assert forall|t2: int| 0 <= t2 < m2.subtrees.len() implies #[trigger] subtree_wf(
            m2,
            t2,
        ) by {
            assert(subtree_wf(m, t2));
        }
        assert forall|r: usize|
            (#[trigger] reg_count(m2, r)) <= 1 && (m2.next_reg <= r ==> reg_count(m2, r)
                == 0) by {
            assert(pending(m2, CKey::Reg(r)) == pending(m, CKey::Reg(r)));
            assert(reg_count(m2, r) == reg_count(m, r));
        }
        assert forall|i: int|
            0 <= i < m2.observations.len() implies observation_ok(
            m2,
            #[trigger] m2.observations[i],
        ) by {
            assert(observation_ok(m, m.observations[i]));
        }
    }
}

/// The intermediate shape of the state while a new barrier's members are
/// being registered: every clause of `wf` holds except the new barrier's
/// count, whose pending continuations so far number `i`, the members already
/// registered, rather than `remaining`.
pub open spec fn reg_phase_wf(m: Model, b: int, i: int) -> bool {
    let bar = m.barriers[b];
    &&& m.signals.len() <= usize::MAX
    &&& m.barriers.len() <= usize::MAX
    &&& m.subtrees.len() <= usize::MAX
    &&& 1 <= m.signals.len()
    &&& !m.signals[hydration_signal() as int].protected
    &&& (forall|s: int| 0 <= s < m.signals.len() ==> #[trigger] signal_wf(m, s))
    &&& conts_ok(m, m.queue)
    &&& 0 <= b < m.barriers.len()
    &&& (forall|b2: int|
        0 <= b2 < m.barriers.len() && b2 != b ==> #[trigger] barrier_wf(m, b2))
    &&& (forall|b1: int, b2: int|
        0 <= b1 < m.barriers.len() && 0 <= b2 < m.barriers.len() && b1 != b2
            ==> #[trigger] m.barriers[b1].output != #[trigger] m.barriers[b2].output)
    &&& (forall|i2: int|
        0 <= i2 < m.invocations.len() ==> (#[trigger] m.invocations[i2]) < m.subtrees.len()
            && m.subtrees[m.invocations[i2] as int].called)
    &&& (forall|i2: int, j: int|
        0 <= i2 < m.invocations.len() && 0 <= j < m.invocations.len() && i2 != j
            ==> #[trigger] m.invocations[i2] != #[trigger] m.invocations[j])
    &&& (forall|t: int| 0 <= t < m.subtrees.len() ==> #[trigger] subtree_wf(m, t))
    &&& (forall|r: usize|
        (#[trigger] reg_count(m, r)) <= 1 && (m.next_reg <= r ==> reg_count(m, r) == 0))
    &&& (forall|i2: int|
        0 <= i2 < m.observations.len() ==> observation_ok(m, #[trigger] m.observations[i2]))
    &&& 0 <= i <= bar.members.len()
    &&& bar.output < m.signals.len()
    &&& m.signals[bar.output as int].protected
    &&& !m.signals[bar.output as int].resolved
    &&& (forall|j: int|
        0 <= j < bar.members.len() ==> (#[trigger] bar.members[j]) < m.signals.len()
            && bar.members[j] != bar.output)
    &&& bar.remaining == bar.members.len()
    &&& pending(m, CKey::Bar(b as usize)) == i
    &&& (forall|x: usize|
        x < m.signals.len() && !m.signals[x as int].resolved ==> ccount(
            #[trigger] m.signals[x as int].waiters,
            CKey::Bar(b as usize),
        ) == occ(bar.members.take(i), x))
}

/// Registering the next member keeps the registration-phase shape, with one
/// more membership pending.
pub proof fn lemma_register_member_phase(m: Model, b: usize, i: int)
    requires
        reg_phase_wf(m, b as int, i - 1),
        1 <= i <= m.barriers[b as int].members.len(),
    ensures
        reg_phase_wf(spec_register_member(m, b, m.barriers[b as int].members[i - 1]), b as int, i),
        spec_register_member(m, b, m.barriers[b as int].members[i - 1]).barriers == m.barriers,
{
    let bar = m.barriers[b as int];
    let s = bar.members[i - 1];
    let c = Continuation::BarrierMember { barrier: b };
    let kb = CKey::Bar(b as usize);
    assert(s < m.signals.len());
    let m2 = spec_register_member(m, b, s);
    assert(m2.barriers == m.barriers);
    assert(m2.observations == m.observations);
    assert(cmatch(c, kb));
    if m.signals[s as int].resolved {
        assert(m2.signals == m.signals);
        assert(m2.queue == m.queue.push(c));
        assert forall|k: CKey|
            #[trigger] pending(m2, k) == pending(m, k) + (if cmatch(c, k) {
                1nat
            } else {
                0nat
            }) by {
            crate::counting::lemma_ccount_push(m.queue, c, k);
        }
    } else {
        let sg2 = SignalModel {
            waiters: m.signals[s as int].waiters.push(c),
            ..m.signals[s as int]
        };
        assert(m2.signals == m.signals.update(s as int, sg2));
        assert(m2.queue == m.queue);
        assert forall|k: CKey|
            #[trigger] pending(m2, k) == pending(m, k) + (if cmatch(c, k) {
                1nat
            } else {
                0nat
            }) by {
            crate::counting::lemma_wsum_after_waiter_push(m.signals, s as int, c, k);
        }
    }
    assert(pending(m2, kb) == i);
    assert(m2.signals[0].protected == m.signals[0].protected);
    assert forall|x: int| 0 <= x < m2.signals.len() implies #[trigger] signal_wf(m2, x) by {
        assert(signal_wf(m, x));
        if !m.signals[s as int].resolved && x == s as int {
            assert forall|j: int|
                0 <= j < m2.signals[x].waiters.len() implies cont_ok(
                m2,
                #[trigger] m2.signals[x].waiters[j],
            ) by {
                if j < m.signals[x].waiters.len() {
                    assert(m2.signals[x].waiters[j] == m.signals[x].waiters[j]);
                    assert(cont_ok(m, m.signals[x].waiters[j]));
                } else {
                    assert(m2.signals[x].waiters[j] == c);
                }
            }
        } else {
            assert(m2.signals[x] == m.signals[x]);
            assert forall|j: int|
                0 <= j < m2.signals[x].waiters.len() implies cont_ok(
                m2,
                #[trigger] m2.signals[x].waiters[j],
            ) by {
                assert(cont_ok(m, m.signals[x].waiters[j]));
            }
        }
    }
    assert forall|j: int| 0 <= j < m2.queue.len() implies cont_ok(m2, #[trigger] m2.queue[j]) by {
        if j < m.queue.len() {
            assert(m2.queue[j] == m.queue[j]);
            assert(cont_ok(m, m.queue[j]));
        } else {
            assert(m2.queue[j] == c);
        }
    }
    assert forall|b2: int|
        0 <= b2 < m2.barriers.len() && b2 != b as int implies #[trigger] barrier_wf(m2, b2) by {
        assert(barrier_wf(m, b2));
        let k2 = CKey::Bar(b2 as usize);
        assert(!cmatch(c, k2));
        assert(pending(m2, k2) == pending(m, k2));
        assert(m2.signals[m.barriers[b2].output as int].protected
            == m.signals[m.barriers[b2].output as int].protected);
        assert(m2.signals[m.barriers[b2].output as int].resolved
            == m.signals[m.barriers[b2].output as int].resolved);
        assert forall|x: usize|
            x < m2.signals.len() && !m2.signals[x as int].resolved implies ccount(
            #[trigger] m2.signals[x as int].waiters,
            k2,
        ) == occ(m.barriers[b2].members, x) by {
            if !m.signals[s as int].resolved && x == s {
                crate::counting::lemma_ccount_push(m.signals[s as int].waiters, c, k2);
            } else {
                assert(m2.signals[x as int] == m.signals[x as int]);
            }
        }
    }
    assert forall|t: int| 0 <= t < m2.subtrees.len() implies #[trigger] subtree_wf(m2, t) by {
        assert(subtree_wf(m, t));
        let mnt = m.subtrees[t].mount_signal;
        assert(m2.signals[mnt as int].protected == m.signals[mnt as int].protected);
    }
    assert forall|r: usize|
        (#[trigger] reg_count(m2, r)) <= 1 && (m2.next_reg <= r ==> reg_count(m2, r) == 0) by {
        assert(!cmatch(c, CKey::Reg(r)));
        assert(pending(m2, CKey::Reg(r)) == pending(m, CKey::Reg(r)));
        assert(reg_count(m2, r) == reg_count(m, r));
    }
    assert forall|i2: int|
        0 <= i2 < m2.observations.len() implies observation_ok(
        m2,
        #[trigger] m2.observations[i2],
    ) by {
        assert(observation_ok(m, m.observations[i2]));
    }
    assert(m2.signals[bar.output as int].protected == m.signals[bar.output as int].protected);
    assert(m2.signals[bar.output as int].resolved == m.signals[bar.output as int].resolved);
    assert forall|x: usize|
        x < m2.signals.len() && !m2.signals[x as int].resolved implies ccount(
        #[trigger] m2.signals[x as int].waiters,
        kb,
    ) == occ(bar.members.take(i), x) by {
        crate::counting::lemma_occ_take_step(bar.members, i, x);
        if !m.signals[s as int].resolved && x == s {
            crate::counting::lemma_ccount_push(m.signals[s as int].waiters, c, kb);
        } else {
            assert(m2.signals[x as int] == m.signals[x as int]);
            if m.signals[s as int].resolved {
                assert(s != x);
            }
        }
    }
}

/// Registering the first `i` members, one after the other, lands in the
/// registration-phase shape with `i` memberships pending.
proof fn lemma_register_upto_phase(m: Model, b: usize, ms: Seq<usize>, i: int)
    requires
        reg_phase_wf(m, b as int, 0),
        m.barriers[b as int].members == ms,
        0 <= i <= ms.len(),
    ensures
        reg_phase_wf(spec_register_upto(m, b, ms, i), b as int, i),
        spec_register_upto(m, b, ms, i).barriers == m.barriers,
    decreases i,
{
    if i > 0 {
        lemma_register_upto_phase(m, b, ms, i - 1);
        let mprev = spec_register_upto(m, b, ms, i - 1);
        assert(mprev.barriers[b as int].members == ms);
        lemma_register_member_phase(mprev, b, i);
        assert(spec_register_upto(m, b, ms, i) == spec_register_member(mprev, b, ms[i - 1]));
    }
}

/// The state right after a join created its output signal and pushed the
/// new barrier, before any member is registered.
pub open spec fn join_setup(m: Model, ms: Seq<usize>) -> Model {
    let with_output = spec_create_signal(m, true);
    Model {
        barriers: with_output.barriers.push(
            BarrierModel {
                members: ms,
                remaining: ms.len(),
                output: m.signals.len() as usize,
            },
        ),
        ..with_output
    }
}

/// The setup state is in registration phase with zero members registered.
pub proof fn lemma_join_setup(m: Model, ms: Seq<usize>)
    requires
        wf(m),
        m.signals.len() < usize::MAX,
        m.barriers.len() < usize::MAX,
        forall|j: int| 0 <= j < ms.len() ==> (#[trigger] ms[j]) < m.signals.len(),
    ensures
        reg_phase_wf(join_setup(m, ms), m.barriers.len() as int, 0),
        join_setup(m, ms).barriers[m.barriers.len() as int].members == ms,
{
    let out = m.signals.len() as usize;
    let b = m.barriers.len() as usize;
    let fresh = SignalModel { resolved: false, protected: true, waiters: Seq::empty() };
    lemma_wf_create_signal(m, true);
    let m1 = spec_create_signal(m, true);
    let newbar = BarrierModel { members: ms, remaining: ms.len(), output: out };
    let m2 = Model { barriers: m1.barriers.push(newbar), ..m1 };
    let kb = CKey::Bar(b);
    assert(m2.barriers[b as int] == newbar);
    assert(m2 == join_setup(m, ms));
    assert(reg_phase_wf(m2, b as int, 0)) by {
        assert forall|x: int| 0 <= x < m2.signals.len() implies #[trigger] signal_wf(m2, x) by {
            assert(signal_wf(m1, x));
            assert forall|j: int|
                0 <= j < m2.signals[x].waiters.len() implies cont_ok(
                m2,
                #[trigger] m2.signals[x].waiters[j],
            ) by {
                assert(cont_ok(m1, m1.signals[x].waiters[j]));
            }
        }
        assert forall|j: int|
            0 <= j < m2.queue.len() implies cont_ok(m2, #[trigger] m2.queue[j]) by {
            assert(cont_ok(m1, m1.queue[j]));
        }
        assert forall|b2: int|
            0 <= b2 < m2.barriers.len() && b2 != b as int implies #[trigger] barrier_wf(
            m2,
            b2,
        ) by {
            assert(barrier_wf(m1, b2));
            assert(m2.barriers[b2] == m1.barriers[b2]);
            assert(pending(m2, CKey::Bar(b2 as usize)) == pending(m1, CKey::Bar(b2 as usize)));
        }
        assert forall|b1: int, b2: int|
            0 <= b1 < m2.barriers.len() && 0 <= b2 < m2.barriers.len() && b1 != b2
            implies #[trigger] m2.barriers[b1].output != #[trigger] m2.barriers[b2].output by {
            if b1 < b as int && b2 < b as int {
                assert(m1.barriers[b1].output != m1.barriers[b2].output);
            } else if b1 == b as int {
                assert(barrier_wf(m, b2));
                assert(m.barriers[b2].output < m.signals.len());
            } else {
                assert(barrier_wf(m, b1));
                assert(m.barriers[b1].output < m.signals.len());
            }
        }
        assert forall|t: int| 0 <= t < m2.subtrees.len() implies #[trigger] subtree_wf(m2, t) by {
            assert(subtree_wf(m1, t));
        }
        assert forall|r: usize|
            (#[trigger] reg_count(m2, r)) <= 1 && (m2.next_reg <= r ==> reg_count(m2, r)
                == 0) by {
            assert(reg_count(m1, r) <= 1);
            assert(pending(m2, CKey::Reg(r)) == pending(m1, CKey::Reg(r)));
            assert(reg_count(m2, r) == reg_count(m1, r));
        }
        assert forall|i2: int|
            0 <= i2 < m2.observations.len() implies observation_ok(
            m2,
            #[trigger] m2.observations[i2],
        ) by {
            assert(observation_ok(m1, m1.observations[i2]));
        }
        assert(pending(m2, kb) == 0) by {
            assert forall|j: int| 0 <= j < m2.queue.len() implies !cmatch(
                #[trigger] m2.queue[j],
                kb,
            ) by {
                assert(cont_ok(m1, m1.queue[j]));
            }
            crate::counting::lemma_ccount_zero(m2.queue, kb);
            assert forall|x: int|
                0 <= x < m2.signals.len() implies ccount(
                #[trigger] m2.signals[x].waiters,
                kb,
            ) == 0 by {
                assert(signal_wf(m1, x));
                assert forall|j: int|
                    0 <= j < m2.signals[x].waiters.len() implies !cmatch(
                    #[trigger] m2.signals[x].waiters[j],
                    kb,
                ) by {
                    assert(cont_ok(m1, m1.signals[x].waiters[j]));
                }
                crate::counting::lemma_ccount_zero(m2.signals[x].waiters, kb);
            }
            lemma_wsum_all_zero(m2.signals, kb);
        }
        assert forall|x: usize|
            x < m2.signals.len() && !m2.signals[x as int].resolved implies ccount(
            #[trigger] m2.signals[x as int].waiters,
            kb,
        ) == occ(newbar.members.take(0), x) by {
            assert(signal_wf(m1, x as int));
            assert forall|j: int|
                0 <= j < m2.signals[x as int].waiters.len() implies !cmatch(
                #[trigger] m2.signals[x as int].waiters[j],
                kb,
            ) by {
                assert(cont_ok(m1, m1.signals[x as int].waiters[j]));
            }
            crate::counting::lemma_ccount_zero(m2.signals[x as int].waiters, kb);
            assert(newbar.members.take(0) =~= Seq::<usize>::empty());
        }
    }
}

/// Joining any finite set of signals yields a well-formed state again: the
/// new barrier's count equals its pending memberships, and an empty join
/// resolves its output at once.
pub proof fn lemma_wf_join(m: Model, ms: Seq<usize>)
    requires
        wf(m),
        m.signals.len() < usize::MAX,
        m.barriers.len() < usize::MAX,
        forall|j: int| 0 <= j < ms.len() ==> (#[trigger] ms[j]) < m.signals.len(),
    ensures
        wf(spec_join(m, ms)),
{
    let out = m.signals.len() as usize;
    let b = m.barriers.len() as usize;
    let fresh = SignalModel { resolved: false, protected: true, waiters: Seq::empty() };
    let m1 = spec_create_signal(m, true);
    let newbar = BarrierModel { members: ms, remaining: ms.len(), output: out };
    let m2 = Model { barriers: m1.barriers.push(newbar), ..m1 };
    let kb = CKey::Bar(b);
    assert(m2 == join_setup(m, ms));
    lemma_join_setup(m, ms);
    assert(reg_phase_wf(m2, b as int, 0));
    lemma_register_upto_phase(m2, b, ms, ms.len() as int);
    let m3 = spec_register_upto(m2, b, ms, ms.len() as int);
    assert(reg_phase_wf(m3, b as int, ms.len() as int));
    assert(m3.barriers == m2.barriers);
    if ms.len() == 0 {
        assert(m3 == m2);
        let m4 = spec_fire(m3, out);
        assert(spec_join(m, ms) == m4);
        assert(m3.signals[out as int] == fresh);
        let sg2 = SignalModel { resolved: true, waiters: Seq::empty(), ..fresh };
        assert(m4.signals == m3.signals.update(out as int, sg2));
        assert(m4.queue == m3.queue + fresh.waiters);
        assert(m4.queue =~= m3.queue);
        assert forall|k: CKey| #[trigger] pending(m4, k) == pending(m3, k) by {
            crate::counting::lemma_wsum_after_waiter_drain(m3.signals, out as int, sg2, k);
            assert(ccount(fresh.waiters, k) == 0);
        }
        assert(m4.signals[0].protected == m3.signals[0].protected);
        assert forall|x: int| 0 <= x < m4.signals.len() implies #[trigger] signal_wf(m4, x) by {
            assert(signal_wf(m3, x));
            if x == out as int {
                assert(m4.signals[x].waiters.len() == 0);
            } else {
                assert(m4.signals[x] == m3.signals[x]);
                assert forall|j: int|
                    0 <= j < m4.signals[x].waiters.len() implies cont_ok(
                    m4,
                    #[trigger] m4.signals[x].waiters[j],
                ) by {
                    assert(cont_ok(m3, m3.signals[x].waiters[j]));
                }
            }
        }
        assert forall|j: int|
            0 <= j < m4.queue.len() implies cont_ok(m4, #[trigger] m4.queue[j]) by {
            assert(m4.queue[j] == m3.queue[j]);
            assert(cont_ok(m3, m3.queue[j]));
        }
        assert forall|b2: int| 0 <= b2 < m4.barriers.len() implies #[trigger] barrier_wf(
            m4,
            b2,
        ) by {
            if b2 != b as int {
                assert(barrier_wf(m3, b2));
                assert(m3.barriers[b2].output != out);
                assert(m4.signals[m3.barriers[b2].output as int]
                    == m3.signals[m3.barriers[b2].output as int]);
                assert forall|x: usize|
                    x < m4.signals.len() && !m4.signals[x as int].resolved implies ccount(
                    #[trigger] m4.signals[x as int].waiters,
                    CKey::Bar(b2 as usize),
                ) == occ(m3.barriers[b2].members, x) by {
                    assert(x != out);
                    assert(m4.signals[x as int] == m3.signals[x as int]);
                }
            } else {
                assert(pending(m4, kb) == 0);
                assert forall|x: usize|
                    x < m4.signals.len() && !m4.signals[x as int].resolved implies ccount(
                    #[trigger] m4.signals[x as int].waiters,
                    kb,
                ) == occ(ms, x) by {
                    assert(x != out);
                    assert(m4.signals[x as int] == m3.signals[x as int]);
                    assert(ms.take(0) =~= ms);
                }
            }
        }
        assert forall|t: int| 0 <= t < m4.subtrees.len() implies #[trigger] subtree_wf(m4, t) by {
            assert(subtree_wf(m3, t));
            let mnt = m3.subtrees[t].mount_signal;
            assert(m4.signals[mnt as int].protected == m3.signals[mnt as int].protected);
        }
        assert forall|r: usize|
            (#[trigger] reg_count(m4, r)) <= 1 && (m4.next_reg <= r ==> reg_count(m4, r)
                == 0) by {
            assert(reg_count(m3, r) <= 1);
            assert(reg_count(m4, r) == reg_count(m3, r));
        }
        assert forall|i2: int|
            0 <= i2 < m4.observations.len() implies observation_ok(
            m4,
            #[trigger] m4.observations[i2],
        ) by {
            assert(observation_ok(m3, m3.observations[i2]));
        }
    } else {
        assert(spec_join(m, ms) == m3);
        assert(barrier_wf(m3, b as int)) by {
            assert(ms.take(ms.len() as int) =~= ms);
            assert(pending(m3, kb) == ms.len());
        }
        assert forall|b2: int| 0 <= b2 < m3.barriers.len() implies #[trigger] barrier_wf(
            m3,
            b2,
        ) by {
            if b2 != b as int {
                assert(barrier_wf(m3, b2));
            }
        }
        assert(wf(m3));
    }
}

/// The guard preserves well-formedness: it runs only for a live, uncalled
/// subtree, so the invocation log stays duplicate-free.
pub proof fn lemma_wf_invoke_once(m: Model, t: usize)
    requires
        wf(m),
    ensures
        wf(spec_invoke_once(m, t)),
{
    let m2 = spec_invoke_once(m, t);
    if valid_subtree(m, t) {
        let st = m.subtrees[t as int];
        assert(m2.signals == m.signals);
        assert(m2.queue == m.queue);
        assert(m2.barriers == m.barriers);
        assert(m2.observations == m.observations);
        assert forall|s: int| 0 <= s < m2.signals.len() implies #[trigger] signal_wf(m2, s) by {
            assert(signal_wf(m, s));
        }
        assert forall|b: int| 0 <= b < m2.barriers.len() implies #[trigger] barrier_wf(m2, b) by {
            assert(barrier_wf(m, b));
        }
        assert forall|r: usize|
            (#[trigger] reg_count(m2, r)) <= 1 && (m2.next_reg <= r ==> reg_count(m2, r)
                == 0) by {
            assert(reg_count(m2, r) == reg_count(m, r));
        }
        if st.alive && !st.called {
            assert forall|t2: int| 0 <= t2 < m2.subtrees.len() implies #[trigger] subtree_wf(
                m2,
                t2,
            ) by {
                assert(subtree_wf(m, t2));
            }
            assert forall|i: int|
                0 <= i < m2.invocations.len() implies (#[trigger] m2.invocations[i])
                < m2.subtrees.len() && m2.subtrees[m2.invocations[i] as int].called by {
                if i < m.invocations.len() {
                    assert(m.invocations[i] < m.subtrees.len());
                    assert(m.subtrees[m.invocations[i] as int].called);
                    assert(m.invocations[i] != t);
                } else {
                    assert(m2.invocations[i] == t);
                }
            }
            assert forall|i: int, j: int|
                0 <= i < m2.invocations.len() && 0 <= j < m2.invocations.len() && i != j
                implies #[trigger] m2.invocations[i] != #[trigger] m2.invocations[j] by {
                if i < m.invocations.len() && j < m.invocations.len() {
                    assert(m.invocations[i] != m.invocations[j]);
                } else if i < m.invocations.len() {
                    assert(m.invocations[i] != t);
                } else if j < m.invocations.len() {
                    assert(m.invocations[j] != t);
                }
            }
        } else {
            assert forall|t2: int| 0 <= t2 < m2.subtrees.len() implies #[trigger] subtree_wf(
                m2,
                t2,
            ) by {
                assert(subtree_wf(m, t2));
            }
        }
    }
}

/// A fresh subtree arrives alive, uncalled, renderer-owned, with a fresh
/// unprotected mount signal.
pub proof fn lemma_wf_create_subtree(m: Model, kind: crate::model::ContentKind)
    requires
        wf(m),
        m.signals.len() < usize::MAX,
        m.subtrees.len() < usize::MAX,
    ensures
        wf(spec_create_subtree(m, kind)),
{
    lemma_wf_create_signal(m, false);
    let mount = m.signals.len() as usize;
    let m1 = spec_create_signal(m, false);
    let st = SubtreeModel {
        alive: true,
        called: false,
        owner: Owner::Renderer,
        kind,
        mount_signal: mount,
    };
    let m2 = spec_create_subtree(m, kind);
    assert(m2.subtrees == m1.subtrees.push(st));
    assert(m2.signals == m1.signals);
    assert(m2.queue == m1.queue);
    assert(m2.barriers == m1.barriers);
    assert(m2.observations == m1.observations);
    assert(m2.invocations == m1.invocations);
    assert forall|x: int| 0 <= x < m2.signals.len() implies #[trigger] signal_wf(m2, x) by {
        assert(signal_wf(m1, x));
        assert forall|j: int|
            0 <= j < m2.signals[x].waiters.len() implies cont_ok(
            m2,
            #[trigger] m2.signals[x].waiters[j],
        ) by {
            assert(cont_ok(m1, m1.signals[x].waiters[j]));
        }
    }
    assert forall|j: int| 0 <= j < m2.queue.len() implies cont_ok(m2, #[trigger] m2.queue[j]) by {
        assert(cont_ok(m1, m1.queue[j]));
    }
    assert forall|b: int| 0 <= b < m2.barriers.len() implies #[trigger] barrier_wf(m2, b) by {
        assert(barrier_wf(m1, b));
        assert(pending(m2, CKey::Bar(b as usize)) == pending(m1, CKey::Bar(b as usize)));
    }
    assert forall|t: int| 0 <= t < m2.subtrees.len() implies #[trigger] subtree_wf(m2, t) by {
        if t < m1.subtrees.len() {
            assert(subtree_wf(m1, t));
            assert(m2.subtrees[t] == m1.subtrees[t]);
        } else {
            assert(m2.subtrees[t] == st);
            assert(!m1.signals[mount as int].protected);
        }
    }
    assert forall|i2: int|
        0 <= i2 < m2.invocations.len() implies (#[trigger] m2.invocations[i2])
        < m2.subtrees.len() && m2.subtrees[m2.invocations[i2] as int].called by {
        assert(m1.invocations[i2] < m1.subtrees.len());
        assert(m1.subtrees[m1.invocations[i2] as int].called);
        assert(m2.subtrees[m1.invocations[i2] as int] == m1.subtrees[m1.invocations[i2] as int]);
    }
    assert forall|r: usize|
        (#[trigger] reg_count(m2, r)) <= 1 && (m2.next_reg <= r ==> reg_count(m2, r) == 0) by {
        assert(reg_count(m1, r) <= 1);
        assert(reg_count(m2, r) == reg_count(m1, r));
    }
    assert forall|i2: int|
        0 <= i2 < m2.observations.len() implies observation_ok(
        m2,
        #[trigger] m2.observations[i2],
    ) by {
        assert(observation_ok(m1, m1.observations[i2]));
    }
}

/// One scheduling turn preserves every invariant: a subscriber moves from
/// pending to observed, a barrier membership moves from pending into the
/// count (firing the output at zero), and a guard call runs through the guard.
pub proof fn lemma_wf_step(m: Model)
    requires
        wf(m),
    ensures
        wf(spec_step(m)),
{
    if m.queue.len() > 0 {
        let c = m.queue[0];
        let rest = Model { queue: m.queue.drop_first(), ..m };
        assert(cont_ok(m, c));
        assert forall|k: CKey|
            #[trigger] pending(m, k) == pending(rest, k) + (if cmatch(c, k) {
                1nat
            } else {
                0nat
            }) by {
            crate::counting::lemma_ccount_dequeue(m.queue, k);
        }
        assert forall|j: int|
            0 <= j < rest.queue.len() implies cont_ok(rest, #[trigger] rest.queue[j]) by {
            assert(rest.queue[j] == m.queue[j + 1]);
            assert(cont_ok(m, m.queue[j + 1]));
        }
        assert forall|x: int| 0 <= x < rest.signals.len() implies #[trigger] signal_wf(
            rest,
            x,
        ) by {
            assert(signal_wf(m, x));
            assert forall|j: int|
                0 <= j < rest.signals[x].waiters.len() implies cont_ok(
                rest,
                #[trigger] rest.signals[x].waiters[j],
            ) by {
                assert(cont_ok(m, m.signals[x].waiters[j]));
            }
        }
        assert forall|t: int| 0 <= t < rest.subtrees.len() implies #[trigger] subtree_wf(
            rest,
            t,
        ) by {
            assert(subtree_wf(m, t));
        }
        assert forall|i2: int|
            0 <= i2 < rest.observations.len() implies observation_ok(
            rest,
            #[trigger] rest.observations[i2],
        ) by {
            assert(observation_ok(m, m.observations[i2]));
        }
        match c {
            Continuation::Observe { reg, token, signal } => {
                let o = Observation { reg, token, signal };
                let m2 = Model { observations: rest.observations.push(o), ..rest };
                assert(spec_step(m) == m2);
                assert forall|x: int| 0 <= x < m2.signals.len() implies #[trigger] signal_wf(
                    m2,
                    x,
                ) by {
                    assert(signal_wf(rest, x));
                    assert forall|j: int|
                        0 <= j < m2.signals[x].waiters.len() implies cont_ok(
                        m2,
                        #[trigger] m2.signals[x].waiters[j],
                    ) by {
                        assert(cont_ok(rest, rest.signals[x].waiters[j]));
                    }
                }
                assert forall|j: int|
                    0 <= j < m2.queue.len() implies cont_ok(m2, #[trigger] m2.queue[j]) by {
                    assert(cont_ok(rest, rest.queue[j]));
                }
                assert forall|b: int| 0 <= b < m2.barriers.len() implies #[trigger] barrier_wf(
                    m2,
                    b,
                ) by {
                    assert(barrier_wf(m, b));
                    let k = CKey::Bar(b as usize);
                    assert(!cmatch(c, k));
                    assert(pending(m2, k) == pending(m, k));
                    assert forall|x: usize|
                        x < m2.signals.len() && !m2.signals[x as int].resolved implies ccount(
                        #[trigger] m2.signals[x as int].waiters,
                        k,
                    ) == occ(m.barriers[b].members, x) by {
                        assert(m2.signals[x as int] == m.signals[x as int]);
                    }
                }
                assert forall|r: usize|
                    (#[trigger] reg_count(m2, r)) <= 1 && (m2.next_reg <= r ==> reg_count(m2, r)
                        == 0) by {
                    crate::counting::lemma_ocount_push(rest.observations, o, r);
                    assert(reg_count(m, r) <= 1);
                    assert(reg_count(m2, r) == reg_count(m, r));
                }
                assert forall|i2: int|
                    0 <= i2 < m2.observations.len() implies observation_ok(
                    m2,
                    #[trigger] m2.observations[i2],
                ) by {
                    if i2 < rest.observations.len() {
                        assert(m2.observations[i2] == m.observations[i2]);
                        assert(observation_ok(m, m.observations[i2]));
                    } else {
                        assert(m2.observations[i2] == o);
                    }
                }
                assert forall|t: int| 0 <= t < m2.subtrees.len() implies #[trigger] subtree_wf(
                    m2,
                    t,
                ) by {
                    assert(subtree_wf(m, t));
                }
                assert forall|i2: int|
                    0 <= i2 < m2.invocations.len() implies (#[trigger] m2.invocations[i2])
                    < m2.subtrees.len() && m2.subtrees[m2.invocations[i2] as int].called by {
                    assert(m.invocations[i2] < m.subtrees.len());
                    assert(m.subtrees[m.invocations[i2] as int].called);
                }
                assert forall|i2: int, j: int|
                    0 <= i2 < m2.invocations.len() && 0 <= j < m2.invocations.len() && i2 != j
                    implies #[trigger] m2.invocations[i2] != #[trigger] m2.invocations[j] by {
                    assert(m.invocations[i2] != m.invocations[j]);
                }
                assert(wf(m2));
            },
            Continuation::GuardInvoke { subtree } => {
                assert(wf(rest)) by {
                    assert forall|b: int|
                        0 <= b < rest.barriers.len() implies #[trigger] barrier_wf(rest, b) by {
                        assert(barrier_wf(m, b));
                        let k = CKey::Bar(b as usize);
                        assert(!cmatch(c, k));
                        assert(pending(rest, k) == pending(m, k));
                        assert forall|x: usize|
                            x < rest.signals.len() && !rest.signals[x as int].resolved
                            implies ccount(#[trigger] rest.signals[x as int].waiters, k) == occ(
                            m.barriers[b].members,
                            x,
                        ) by {
                            assert(rest.signals[x as int] == m.signals[x as int]);
                        }
                    }
                    assert forall|r: usize|
                        (#[trigger] reg_count(rest, r)) <= 1 && (rest.next_reg <= r ==> reg_count(
                            rest,
                            r,
                        ) == 0) by {
                        assert(!cmatch(c, CKey::Reg(r)));
                        assert(reg_count(rest, r) == reg_count(m, r));
                        assert(reg_count(m, r) <= 1);
                    }
                }
                lemma_wf_invoke_once(rest, subtree);
                assert(spec_step(m) == spec_invoke_once(rest, subtree));
                assert(wf(spec_step(m)));
            },
            Continuation::BarrierMember { barrier } => {
                let kb = CKey::Bar(barrier as usize);
                assert(cmatch(c, kb));
                assert(barrier_wf(m, barrier as int));
                let bar = m.barriers[barrier as int];
                assert(bar.remaining == pending(m, kb));
                assert(bar.remaining >= 1);
                let rem = (bar.remaining - 1) as nat;
                let counted = Model {
                    barriers: rest.barriers.update(
                        barrier as int,
                        BarrierModel { remaining: rem, ..bar },
                    ),
                    ..rest
                };
                assert(pending(counted, kb) == rem);
                assert forall|x: int| 0 <= x < counted.signals.len() implies #[trigger] signal_wf(
                    counted,
                    x,
                ) by {
                    assert(signal_wf(rest, x));
                    assert forall|j: int|
                        0 <= j < counted.signals[x].waiters.len() implies cont_ok(
                        counted,
                        #[trigger] counted.signals[x].waiters[j],
                    ) by {
                        assert(cont_ok(rest, rest.signals[x].waiters[j]));
                    }
                }
                assert forall|j: int|
                    0 <= j < counted.queue.len() implies cont_ok(
                    counted,
                    #[trigger] counted.queue[j],
                ) by {
                    assert(cont_ok(rest, rest.queue[j]));
                }
                assert forall|t: int|
                    0 <= t < counted.subtrees.len() implies #[trigger] subtree_wf(counted, t) by {
                    assert(subtree_wf(rest, t));
                }
                assert forall|r: usize|
                    (#[trigger] reg_count(counted, r)) <= 1 && (counted.next_reg <= r
                        ==> reg_count(counted, r) == 0) by {
                    assert(!cmatch(c, CKey::Reg(r)));
                    assert(reg_count(counted, r) == reg_count(m, r));
                    assert(reg_count(m, r) <= 1);
                }
                assert forall|i2: int|
                    0 <= i2 < counted.observations.len() implies observation_ok(
                    counted,
                    #[trigger] counted.observations[i2],
                ) by {
                    assert(observation_ok(m, m.observations[i2]));
                }
                assert forall|b2: int|
                    0 <= b2 < counted.barriers.len() && b2 != barrier as int
                    implies #[trigger] barrier_wf(counted, b2) by {
                    assert(barrier_wf(m, b2));
                    let k2 = CKey::Bar(b2 as usize);
                    assert(!cmatch(c, k2));
                    assert(pending(counted, k2) == pending(m, k2));
                    assert(counted.barriers[b2] == m.barriers[b2]);
                    assert forall|x: usize|
                        x < counted.signals.len() && !counted.signals[x as int].resolved
                        implies ccount(#[trigger] counted.signals[x as int].waiters, k2) == occ(
                        m.barriers[b2].members,
                        x,
                    ) by {
                        assert(counted.signals[x as int] == m.signals[x as int]);
                    }
                }
                if rem == 0 {
                    let out = bar.output;
                    assert(!counted.signals[out as int].resolved);
                    let moved = counted.signals[out as int].waiters;
                    let sg2 = SignalModel {
                        resolved: true,
                        waiters: Seq::empty(),
                        ..counted.signals[out as int]
                    };
                    let m2 = spec_fire(counted, out);
                    assert(spec_step(m) == m2);
                    assert(m2.signals == counted.signals.update(out as int, sg2));
                    assert(m2.queue == counted.queue + moved);
                    assert forall|k: CKey| #[trigger] pending(m2, k) == pending(counted, k) by {
                        crate::counting::lemma_wsum_after_waiter_drain(
                            counted.signals,
                            out as int,
                            sg2,
                            k,
                        );
                        crate::counting::lemma_ccount_add(counted.queue, moved, k);
                    }
                    assert(signal_wf(counted, out as int));
                    assert forall|x: int|
                        0 <= x < m2.signals.len() implies #[trigger] signal_wf(m2, x) by {
                        assert(signal_wf(counted, x));
                        if x == out as int {
                            assert(m2.signals[x].waiters.len() == 0);
                        } else {
                            assert(m2.signals[x] == counted.signals[x]);
                            assert forall|j: int|
                                0 <= j < m2.signals[x].waiters.len() implies cont_ok(
                                m2,
                                #[trigger] m2.signals[x].waiters[j],
                            ) by {
                                assert(cont_ok(counted, counted.signals[x].waiters[j]));
                            }
                        }
                    }
                    assert forall|j: int|
                        0 <= j < m2.queue.len() implies cont_ok(m2, #[trigger] m2.queue[j]) by {
                        if j < counted.queue.len() {
                            assert(m2.queue[j] == counted.queue[j]);
                            assert(cont_ok(counted, counted.queue[j]));
                        } else {
                            assert(m2.queue[j] == moved[j - counted.queue.len()]);
                            assert(cont_ok(counted, moved[j - counted.queue.len()]));
                        }
                    }
                    assert forall|b2: int|
                        0 <= b2 < m2.barriers.len() implies #[trigger] barrier_wf(m2, b2) by {
                        if b2 == barrier as int {
                            assert(pending(m2, kb) == 0);
                            assert forall|x: usize|
                                x < m2.signals.len() && !m2.signals[x as int].resolved
                                implies ccount(#[trigger] m2.signals[x as int].waiters, kb) == occ(
                                bar.members,
                                x,
                            ) by {
                                assert(x != out);
                                assert(m2.signals[x as int] == m.signals[x as int]);
                            }
                        } else {
                            assert(barrier_wf(counted, b2));
                            assert(m.barriers[b2].output != out);
                            assert(m2.signals[m.barriers[b2].output as int]
                                == counted.signals[m.barriers[b2].output as int]);
                            assert forall|x: usize|
                                x < m2.signals.len() && !m2.signals[x as int].resolved
                                implies ccount(
                                #[trigger] m2.signals[x as int].waiters,
                                CKey::Bar(b2 as usize),
                            ) == occ(m.barriers[b2].members, x) by {
                                assert(x != out);
                                assert(m2.signals[x as int] == counted.signals[x as int]);
                            }
                        }
                    }
                    assert forall|t: int|
                        0 <= t < m2.subtrees.len() implies #[trigger] subtree_wf(m2, t) by {
                        assert(subtree_wf(counted, t));
                        let mnt = counted.subtrees[t].mount_signal;
                        assert(m2.signals[mnt as int].protected == counted.signals[mnt
                            as int].protected);
                    }
                    assert forall|r: usize|
                        (#[trigger] reg_count(m2, r)) <= 1 && (m2.next_reg <= r ==> reg_count(
                            m2,
                            r,
                        ) == 0) by {
                        assert(pending(m2, CKey::Reg(r)) == pending(counted, CKey::Reg(r)));
                        assert(reg_count(m2, r) == reg_count(counted, r));
                        assert(reg_count(counted, r) == reg_count(m, r));
                        assert(reg_count(m, r) <= 1);
                    }
                    assert forall|i2: int|
                        0 <= i2 < m2.observations.len() implies observation_ok(
                        m2,
                        #[trigger] m2.observations[i2],
                    ) by {
                        assert(observation_ok(counted, counted.observations[i2]));
                    }
                    assert(wf(m2));
                } else {
                    assert(spec_step(m) == counted);
                    assert(barrier_wf(counted, barrier as int)) by {
                        assert(!m.signals[bar.output as int].resolved);
                        assert forall|x: usize|
                            x < counted.signals.len() && !counted.signals[x as int].resolved
                            implies ccount(#[trigger] counted.signals[x as int].waiters, kb) == occ(
                            bar.members,
                            x,
                        ) by {
                            assert(counted.signals[x as int] == m.signals[x as int]);
                        }
                    }
                    assert forall|b2: int|
                        0 <= b2 < counted.barriers.len() implies #[trigger] barrier_wf(
                        counted,
                        b2,
                    ) by {
                        if b2 != barrier as int {
                            assert(barrier_wf(counted, b2));
                        }
                    }
                    assert(wf(counted));
                }
            },
        }
    }
}

/// Every turn consumes exactly one unit of pending work, so draining the
/// queue terminates.
pub proof fn lemma_step_measure(m: Model)
    requires
        m.queue.len() > 0,
    ensures
        measure(spec_step(m)) + 1 == measure(m),
{
    let c = m.queue[0];
    let rest = Model { queue: m.queue.drop_first(), ..m };
    assert(rest.queue.len() + 1 == m.queue.len());
    match c {
        Continuation::Observe { .. } => {
            assert(spec_step(m).signals == m.signals);
        },
        Continuation::GuardInvoke { subtree } => {
            assert(spec_step(m).signals == m.signals);
            assert(spec_step(m).queue == rest.queue);
        },
        Continuation::BarrierMember { barrier } => {
            if valid_barrier(rest, barrier) && rest.barriers[barrier as int].remaining >= 1 {
                let bar = rest.barriers[barrier as int];
                let rem = (bar.remaining - 1) as nat;
                let counted = Model {
                    barriers: rest.barriers.update(
                        barrier as int,
                        BarrierModel { remaining: rem, ..bar },
                    ),
                    ..rest
                };
                if rem == 0 {
                    let out = bar.output;
                    if valid_signal(counted, out) && !counted.signals[out as int].resolved {
                        let moved = counted.signals[out as int].waiters;
                        let sg2 = SignalModel {
                            resolved: true,
                            waiters: Seq::empty(),
                            ..counted.signals[out as int]
                        };
                        crate::counting::lemma_load_update(counted.signals, out as int, sg2);
                        assert(waiter_load(counted.signals.update(out as int, sg2))
                            + moved.len() == waiter_load(counted.signals));
                        assert(spec_step(m).queue.len() == rest.queue.len() + moved.len());
                    }
                }
            }
        },
    }
}

#[via_fn]
proof fn spec_run_decreases(m: Model) {
    if m.queue.len() > 0 {
        lemma_step_measure(m);
    }
}

/// Turns run until the queue is empty. This terminates: each turn consumes
/// one unit of pending work.
pub open spec fn spec_run(m: Model) -> Model
    decreases measure(m),
    via spec_run_decreases
{
    if m.queue.len() == 0 {
        m
    } else {
        spec_run(spec_step(m))
    }
}

/// The external-resource wrapper preserves every invariant.
pub proof fn lemma_wf_external_resource(m: Model, already_loaded: bool)
    requires
        wf(m),
        m.signals.len() < usize::MAX,
    ensures
        wf(crate::model::spec_external_resource(m, already_loaded)),
{
    lemma_wf_create_signal(m, false);
    if already_loaded {
        lemma_wf_resolve(spec_create_signal(m, false), m.signals.len() as usize);
    }
}

} // verus!
