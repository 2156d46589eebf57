//! The executable coordination state.
//!
//! A [`Coordinator`] owns every readiness signal, convergence barrier,
//! subtree handle and the scheduling queue of one session. All work runs
//! single-threaded on explicit turns: operations only enqueue continuations,
//! and [`Coordinator::step`] / [`Coordinator::run_until_idle`] run them, so
//! a continuation never runs inline with the caller that resolved a signal.
//!
//! Every method's behaviour is pinned to the ghost transitions of
//! [`crate::model`]; well-formedness ([`crate::invariants::wf`]) is
//! established by [`Coordinator::new`] and preserved by every method.

use vstd::prelude::*;

use crate::invariants::lemma_wf_create_signal;
use crate::invariants::lemma_wf_create_subtree;
use crate::invariants::lemma_wf_defer_invoke;
use crate::invariants::lemma_wf_destroy_subtree;
use crate::invariants::lemma_wf_external_resource;
use crate::invariants::lemma_wf_init;
use crate::invariants::lemma_wf_invoke_once;
use crate::invariants::lemma_wf_invoke_when;
use crate::invariants::lemma_wf_join;
use crate::invariants::lemma_wf_mutate_unguarded;
use crate::invariants::lemma_wf_on_ready;
use crate::invariants::lemma_wf_resolve;
use crate::invariants::lemma_wf_step;
use crate::invariants::lemma_step_measure;
use crate::invariants::spec_run;
use crate::invariants::wf;
use crate::counting::reg_count;
use crate::model::hydration_signal;
use crate::model::measure;
use crate::model::spec_create_signal;
use crate::model::spec_create_subtree;
use crate::model::spec_defer_invoke;
use crate::model::spec_destroy_subtree;
use crate::model::spec_external_resource;
use crate::model::spec_fire;
use crate::model::spec_init;
use crate::model::spec_invoke_once;
use crate::model::spec_invoke_when;
use crate::model::spec_join;
use crate::model::spec_mutate_unguarded;
use crate::model::spec_on_ready;
use crate::model::spec_register_member;
use crate::model::spec_register_upto;
use crate::model::spec_resolve;
use crate::model::spec_step;
use crate::model::valid_signal;
use crate::model::valid_subtree;
use crate::model::BarrierModel;
use crate::model::ContentKind;
use crate::model::Continuation;
use crate::model::Diagnostic;
use crate::model::Model;
use crate::model::Observation;
use crate::model::Owner;
use crate::model::SignalModel;
use crate::model::SubtreeModel;

verus! {

/// One readiness signal: a one-shot, idempotent event source.
pub struct Signal {
    resolved: bool,
    protected: bool,
    waiters: Vec<Continuation>,
}

impl View for Signal {
    type V = SignalModel;

    closed spec fn view(&self) -> SignalModel {
        SignalModel { resolved: self.resolved, protected: self.protected, waiters: self.waiters@ }
    }
}

/// One convergence barrier: counts outstanding member registrations.
pub struct Barrier {
    members: Vec<usize>,
    remaining: usize,
    output: usize,
}

impl View for Barrier {
    type V = BarrierModel;

    closed spec fn view(&self) -> BarrierModel {
        BarrierModel {
            members: self.members@,
            remaining: self.remaining as nat,
            output: self.output,
        }
    }
}

/// One subtree handle with its ownership state and invocation guard.
pub struct Subtree {
    alive: bool,
    called: bool,
    owner: Owner,
    kind: ContentKind,
    mount_signal: usize,
}

impl View for Subtree {
    type V = SubtreeModel;

    closed spec fn view(&self) -> SubtreeModel {
        SubtreeModel {
            alive: self.alive,
            called: self.called,
            owner: self.owner,
            kind: self.kind,
            mount_signal: self.mount_signal,
        }
    }
}

/// The whole coordination state of one session.
pub struct Coordinator {
    signals: Vec<Signal>,
    queue: Vec<Continuation>,
    barriers: Vec<Barrier>,
    subtrees: Vec<Subtree>,
    invocations: Vec<usize>,
    direct_mutations: Vec<usize>,
    observations: Vec<Observation>,
    diagnostics: Vec<Diagnostic>,
    next_reg: usize,
    fatal: bool,
}

impl View for Coordinator {
    type V = Model;

    closed spec fn view(&self) -> Model {
        Model {
            signals: self.signals@.map_values(|sg: Signal| sg@),
            queue: self.queue@,
            barriers: self.barriers@.map_values(|b: Barrier| b@),
            subtrees: self.subtrees@.map_values(|st: Subtree| st@),
            invocations: self.invocations@,
            direct_mutations: self.direct_mutations@,
            observations: self.observations@,
            diagnostics: self.diagnostics@,
            next_reg: self.next_reg,
            fatal: self.fatal,
        }
    }
}

impl Coordinator {
    /// A fresh session: only the pending hydration broadcast exists.
    pub fn new() -> (c: Coordinator)
        ensures
            c@ == spec_init(),
            wf(c@),
    {
        let mut signals: Vec<Signal> = Vec::new();
        signals.push(Signal { resolved: false, protected: false, waiters: Vec::new() });
        let c = Coordinator {
            signals,
            queue: Vec::new(),
            barriers: Vec::new(),
            subtrees: Vec::new(),
            invocations: Vec::new(),
            direct_mutations: Vec::new(),
            observations: Vec::new(),
            diagnostics: Vec::new(),
            next_reg: 0,
            fatal: false,
        };
        proof {
            assert(c@.signals =~~= spec_init().signals);
            assert(c@ =~~= spec_init());
            lemma_wf_init();
        }
        c
    }

    /// How many signals exist; every index below this is a valid signal.
    pub fn signal_count(&self) -> (n: usize)
        ensures
            n == self@.signals.len(),
    {
        self.signals.len()
    }

    /// The index of the process-wide hydration broadcast signal.
    pub fn hydration_broadcast(&self) -> (s: usize)
        ensures
            s == hydration_signal(),
            valid_signal(self@, s) <== wf(self@),
    {
        0
    }

    /// Creates a fresh, unresolved readiness signal and returns its index.
    pub fn create_signal(&mut self) -> (s: usize)
        requires
            wf(old(self)@),
        ensures
            wf(final(self)@),
            final(self)@ == spec_create_signal(old(self)@, false),
            s == old(self)@.signals.len(),
            valid_signal(final(self)@, s),
    {
        let ghost pre = self@;
        let s = self.signals.len();
        self.signals.push(Signal { resolved: false, protected: false, waiters: Vec::new() });
        let n = self.signals.len();
        proof {
            assert(n == pre.signals.len() + 1);
            assert(pre.signals.len() < usize::MAX);
            assert(self@.signals =~~= spec_create_signal(pre, false).signals);
            assert(self@ =~~= spec_create_signal(pre, false));
            lemma_wf_create_signal(pre, false);
        }
        s
    }

    /// Whether a signal has resolved. Once true, it stays true.
    pub fn is_resolved(&self, s: usize) -> (r: bool)
        requires
            valid_signal(self@, s),
        ensures
            r == self@.signals[s as int].resolved,
    {
        self.signals[s].resolved
    }

    /// Whether the interactive phase has taken over ("is it already
    /// hydrated?"). The synchronous half of the check-then-subscribe pair;
    /// the other half is `on_ready` on the broadcast, which a late
    /// subscriber may use on its own because it never misses a resolution
    /// that already happened.
    pub fn is_hydrated(&self) -> (r: bool)
        requires
            wf(self@),
        ensures
            r == crate::model::is_hydrated(self@),
    {
        self.signals[0].resolved
    }

    /// Resolution itself, shared by `resolve` and the barrier firing path.
    fn fire(&mut self, s: usize)
        requires
            valid_signal(old(self)@, s),
        ensures
            final(self)@ == spec_fire(old(self)@, s),
    {
        let ghost pre = self@;
        if !self.signals[s].resolved {
            let mut moved: Vec<Continuation> = Vec::new();
            let sig = &mut self.signals[s];
            sig.resolved = true;
            core::mem::swap(&mut moved, &mut sig.waiters);
            self.queue.append(&mut moved);
            proof {
                assert(self@.signals =~~= spec_fire(pre, s).signals);
                assert(self@ =~~= spec_fire(pre, s));
            }
        } else {
            proof {
                assert(self@ =~~= spec_fire(pre, s));
            }
        }
    }

    /// Resolves a signal. Idempotent: resolving an already-resolved signal
    /// changes nothing at all. Its waiters are scheduled on fresh turns, in
    /// registration order, never run inline. A barrier's output signal is
    /// left alone: only its own barrier resolves it.
    pub fn resolve(&mut self, s: usize)
        requires
            wf(old(self)@),
            valid_signal(old(self)@, s),
        ensures
            wf(final(self)@),
            final(self)@ == spec_resolve(old(self)@, s),
            old(self)@.signals[s as int].resolved ==> final(self)@ == old(self)@,
    {
        let ghost pre = self@;
        if !self.signals[s].protected {
            self.fire(s);
        }
        proof {
            assert(self@ == spec_resolve(pre, s));
            lemma_wf_resolve(pre, s);
            if pre.signals[s as int].resolved {
                assert(self@ =~~= pre);
            }
        }
    }

    /// Registers a subscriber on a signal and returns its registration
    /// identity. If the signal is still pending the continuation joins its
    /// waiter queue; if it has already resolved the continuation is
    /// scheduled for the next turn — registered late, it still runs, with
    /// the same argument (the signal), exactly once.
    pub fn on_ready(&mut self, s: usize, token: u64) -> (reg: usize)
        requires
            wf(old(self)@),
            valid_signal(old(self)@, s),
        ensures
            wf(final(self)@),
            final(self)@ == spec_on_ready(old(self)@, s, token),
            reg == old(self)@.next_reg,
            old(self)@.next_reg < usize::MAX ==> reg_count(final(self)@, reg) == 1,
    {
        let ghost pre = self@;
        let reg = self.next_reg;
        if self.next_reg < usize::MAX {
            let c = Continuation::Observe { reg, token, signal: s };
            if self.signals[s].resolved {
                self.queue.push(c);
            } else {
                let sig = &mut self.signals[s];
                sig.waiters.push(c);
            }
            self.next_reg = self.next_reg + 1;
            proof {
                assert(self@.signals =~~= spec_on_ready(pre, s, token).signals);
                assert(self@ =~~= spec_on_ready(pre, s, token));
            }
        } else {
            proof {
                assert(self@ =~~= spec_on_ready(pre, s, token));
            }
        }
        proof {
            lemma_wf_on_ready(pre, s, token);
        }
        reg
    }

    /// Wraps a third-party load: the caller tests the resource's "already
    /// loaded" flag first and passes the answer, wiring the load event to
    /// `resolve` otherwise. An already-loaded resource yields a signal that
    /// is resolved at once, without waiting for any event — and a load event
    /// that still fires afterwards is suppressed by idempotence.
    pub fn external_resource_signal(&mut self, already_loaded: bool) -> (s: usize)
        requires
            wf(old(self)@),
        ensures
            wf(final(self)@),
            final(self)@ == spec_external_resource(old(self)@, already_loaded),
            s == old(self)@.signals.len(),
            valid_signal(final(self)@, s),
            final(self)@.signals[s as int].resolved == already_loaded,
    {
        let ghost pre = self@;
        let s = self.create_signal();
        if already_loaded {
            self.resolve(s);
        }
        proof {
            lemma_wf_external_resource(pre, already_loaded);
        }
        s
    }

    /// Joins any finite set of signals into a convergence barrier and
    /// returns the barrier's output signal: it resolves exactly when every
    /// member has resolved, in whatever order they do, and exactly once.
    /// Members that have already resolved are counted at once, not dropped;
    /// an empty join resolves immediately.
    pub fn join(&mut self, members: &Vec<usize>) -> (out: usize)
        requires
            wf(old(self)@),
            forall|j: int|
                0 <= j < members@.len() ==> (#[trigger] members@[j]) < old(self)@.signals.len(),
        ensures
            wf(final(self)@),
            final(self)@ == spec_join(old(self)@, members@),
            out as int == old(self)@.signals.len(),
            valid_signal(final(self)@, out),
    {
        let ghost pre = self@;
        let out = self.signals.len();
        self.signals.push(Signal { resolved: false, protected: true, waiters: Vec::new() });
        let n = self.signals.len();
        let b = self.barriers.len();
        let mut ms: Vec<usize> = Vec::new();
        let mut j: usize = 0;
        proof {
            assert(members@.take(0) =~= Seq::<usize>::empty());
        }
        while j < members.len()
            invariant
                j <= members.len(),
                ms@ == members@.take(j as int),
            decreases members.len() - j,
        {
            let x = members[j];
            ms.push(x);
            proof {
                assert(ms@ =~= members@.take(j as int + 1));
            }
            j = j + 1;
        }
        proof {
            assert(ms@ =~= members@);
        }
        self.barriers.push(Barrier { members: ms, remaining: members.len(), output: out });
        let nb = self.barriers.len();
        let ghost m1 = spec_create_signal(pre, true);
        let ghost newbar = BarrierModel {
            members: members@,
            remaining: members@.len(),
            output: out,
        };
        let ghost m2 = Model { barriers: m1.barriers.push(newbar), ..m1 };
        proof {
            assert(n == pre.signals.len() + 1);
            assert(nb == pre.barriers.len() + 1);
            assert(pre.signals.len() < usize::MAX);
            assert(pre.barriers.len() < usize::MAX);
            assert(self@.signals =~~= m2.signals);
            assert(self@.barriers =~~= m2.barriers);
            assert(self@ =~~= m2);
            assert(m2 == crate::invariants::join_setup(pre, members@));
            crate::invariants::lemma_join_setup(pre, members@);
            lemma_wf_join(pre, members@);
        }
        let mut i: usize = 0;
        while i < members.len()
            invariant
                i <= members.len(),
                self@ == spec_register_upto(m2, b, members@, i as int),
                crate::invariants::reg_phase_wf(self@, b as int, i as int),
                crate::invariants::reg_phase_wf(m2, b as int, 0),
                self@.barriers == m2.barriers,
                m2.barriers[b as int].members == members@,
                b as int == m2.barriers.len() - 1,
                self@.signals.len() == m2.signals.len(),
            decreases members.len() - i,
        {
            let ghost prev = self@;
            let s = members[i];
            proof {
                assert(prev.barriers[b as int].members[i as int] == s);
                assert(s < prev.signals.len());
            }
            let c = Continuation::BarrierMember { barrier: b };
            if self.signals[s].resolved {
                self.queue.push(c);
            } else {
                let sig = &mut self.signals[s];
                sig.waiters.push(c);
            }
            proof {
                assert(self@.signals =~~= spec_register_member(prev, b, s).signals);
                assert(self@ =~~= spec_register_member(prev, b, s));
                crate::invariants::lemma_register_member_phase(prev, b, i as int + 1);
                assert(spec_register_upto(m2, b, members@, i as int + 1)
                    == spec_register_member(
                    spec_register_upto(m2, b, members@, i as int),
                    b,
                    members@[i as int],
                ));
            }
            i = i + 1;
        }
        if members.len() == 0 {
            self.fire(out);
        }
        proof {
            assert(self@ == spec_join(pre, members@));
        }
        out
    }

    /// Creates a subtree handle, owned by the renderer, together with its
    /// mount signal; returns the subtree's identity. A remount after a
    /// destroy creates a fresh identity with a fresh guard.
    pub fn create_subtree(&mut self, kind: ContentKind) -> (t: usize)
        requires
            wf(old(self)@),
        ensures
            wf(final(self)@),
            final(self)@ == spec_create_subtree(old(self)@, kind),
            t == old(self)@.subtrees.len(),
            valid_subtree(final(self)@, t),
            final(self)@.subtrees[t as int].mount_signal == old(self)@.signals.len(),
            final(self)@.subtrees[t as int].alive,
            !final(self)@.subtrees[t as int].called,
            final(self)@.subtrees[t as int].owner == Owner::Renderer,
    {
        let ghost pre = self@;
        let mount = self.signals.len();
        self.signals.push(Signal { resolved: false, protected: false, waiters: Vec::new() });
        let n = self.signals.len();
        let t = self.subtrees.len();
        self.subtrees.push(
            Subtree { alive: true, called: false, owner: Owner::Renderer, kind, mount_signal: mount },
        );
        let nt = self.subtrees.len();
        proof {
            assert(n == pre.signals.len() + 1);
            assert(nt == pre.subtrees.len() + 1);
            assert(pre.signals.len() < usize::MAX);
            assert(pre.subtrees.len() < usize::MAX);
            assert(self@.signals =~~= spec_create_subtree(pre, kind).signals);
            assert(self@.subtrees =~~= spec_create_subtree(pre, kind).subtrees);
            assert(self@ =~~= spec_create_subtree(pre, kind));
            lemma_wf_create_subtree(pre, kind);
        }
        t
    }

    /// The signal that fires when the renderer commits this subtree to the
    /// live document.
    pub fn mount_signal(&self, t: usize) -> (s: usize)
        requires
            wf(self@),
            valid_subtree(self@, t),
        ensures
            s == self@.subtrees[t as int].mount_signal,
            valid_signal(self@, s),
    {
        proof {
            assert(crate::invariants::subtree_wf(self@, t as int));
        }
        self.subtrees[t].mount_signal
    }

    /// The renderer's "subtree committed" notification: resolves the mount
    /// signal. To be called when the subtree is attached to the live
    /// document, not merely constructed.
    pub fn subtree_committed(&mut self, t: usize)
        requires
            wf(old(self)@),
            valid_subtree(old(self)@, t),
        ensures
            wf(final(self)@),
            final(self)@ == spec_resolve(old(self)@, old(self)@.subtrees[t as int].mount_signal),
            final(self)@.signals[old(self)@.subtrees[t as int].mount_signal as int].resolved,
    {
        let ghost pre = self@;
        proof {
            assert(crate::invariants::subtree_wf(pre, t as int));
        }
        let s = self.subtrees[t].mount_signal;
        self.resolve(s);
    }

    /// Destroys a subtree: ownership is released and the wrapped external
    /// mutation can never run for this identity again, even if every signal
    /// it was waiting on later resolves — a continuation that still fires
    /// finds the subtree dead and is dropped.
    pub fn destroy_subtree(&mut self, t: usize)
        requires
            wf(old(self)@),
            valid_subtree(old(self)@, t),
        ensures
            wf(final(self)@),
            final(self)@ == spec_destroy_subtree(old(self)@, t),
            !final(self)@.subtrees[t as int].alive,
            final(self)@.subtrees[t as int].owner == Owner::Unowned,
    {
        let ghost pre = self@;
        let st = &mut self.subtrees[t];
        st.alive = false;
        st.owner = Owner::Unowned;
        proof {
            assert(self@.subtrees =~~= spec_destroy_subtree(pre, t).subtrees);
            assert(self@ =~~= spec_destroy_subtree(pre, t));
            lemma_wf_destroy_subtree(pre, t);
        }
    }

    /// The guard itself, without the public well-formedness contract, so the
    /// scheduler can run it mid-turn.
    fn guard_run(&mut self, t: usize)
        requires
            valid_subtree(old(self)@, t),
        ensures
            final(self)@ == spec_invoke_once(old(self)@, t),
    {
        let ghost pre = self@;
        let alive = self.subtrees[t].alive;
        let called = self.subtrees[t].called;
        if alive && !called {
            let st = &mut self.subtrees[t];
            st.called = true;
            st.owner = Owner::External;
            self.invocations.push(t);
            proof {
                assert(self@.subtrees =~~= spec_invoke_once(pre, t).subtrees);
                assert(self@ =~~= spec_invoke_once(pre, t));
            }
        } else if alive && called {
            self.diagnostics.push(Diagnostic::DuplicateInvocation { subtree: t });
            proof {
                assert(self@ =~~= spec_invoke_once(pre, t));
            }
        } else {
            proof {
                assert(self@ =~~= spec_invoke_once(pre, t));
            }
        }
    }

    /// The ownership guard: runs the external mutation for a live subtree at
    /// most once per mount lifetime. Returns whether the mutation ran now.
    /// A duplicate request is skipped silently but leaves a diagnostic; a
    /// request for a destroyed subtree is dropped without trace.
    pub fn invoke_once(&mut self, t: usize) -> (executed: bool)
        requires
            wf(old(self)@),
            valid_subtree(old(self)@, t),
        ensures
            wf(final(self)@),
            final(self)@ == spec_invoke_once(old(self)@, t),
            executed == (old(self)@.subtrees[t as int].alive
                && !old(self)@.subtrees[t as int].called),
    {
        let ghost pre = self@;
        let alive = self.subtrees[t].alive;
        let called = self.subtrees[t].called;
        self.guard_run(t);
        proof {
            lemma_wf_invoke_once(pre, t);
        }
        alive && !called
    }

    /// Convergence-guarded invocation: schedules the guard to run for `t` when
    /// signal `s` (typically a barrier output) resolves.
    pub fn invoke_when(&mut self, s: usize, t: usize)
        requires
            wf(old(self)@),
            valid_signal(old(self)@, s),
            valid_subtree(old(self)@, t),
        ensures
            wf(final(self)@),
            final(self)@ == spec_invoke_when(old(self)@, s, t),
    {
        let ghost pre = self@;
        let c = Continuation::GuardInvoke { subtree: t };
        if self.signals[s].resolved {
            self.queue.push(c);
        } else {
            let sig = &mut self.signals[s];
            sig.waiters.push(c);
        }
        proof {
            assert(self@.signals =~~= spec_invoke_when(pre, s, t).signals);
            assert(self@ =~~= spec_invoke_when(pre, s, t));
            lemma_wf_invoke_when(pre, s, t);
        }
    }

    /// Post-commit scheduled invocation: defers the guard to the next turn
    /// unconditionally. Simple but over-eager — any content disturbance may
    /// schedule it again — so it is safe only because the guard itself stays
    /// idempotent per subtree lifetime.
    pub fn defer_invoke(&mut self, t: usize)
        requires
            wf(old(self)@),
            valid_subtree(old(self)@, t),
        ensures
            wf(final(self)@),
            final(self)@ == spec_defer_invoke(old(self)@, t),
    {
        let ghost pre = self@;
        self.queue.push(Continuation::GuardInvoke { subtree: t });
        proof {
            assert(self@ =~~= spec_defer_invoke(pre, t));
            lemma_wf_defer_invoke(pre, t);
        }
    }

    /// An external mutation applied directly, bypassing the guard: the
    /// failure class this library exists to prevent. `phases_agree` reports
    /// whether the static and interactive phases would produce the same
    /// markup for the subtree. Mutating before hydration while they
    /// disagree breaks the session fatally: the interactive phase aborts
    /// reconciliation and only a full reload recovers. Returns whether this
    /// call broke the session.
    pub fn mutate_unguarded(&mut self, t: usize, phases_agree: bool) -> (fatal_now: bool)
        requires
            wf(old(self)@),
            valid_subtree(old(self)@, t),
        ensures
            wf(final(self)@),
            final(self)@ == spec_mutate_unguarded(old(self)@, t, phases_agree),
            fatal_now == (!crate::model::is_hydrated(old(self)@) && !phases_agree),
            final(self)@.fatal == (old(self)@.fatal || fatal_now),
    {
        let ghost pre = self@;
        let hydrated = self.signals[0].resolved;
        self.direct_mutations.push(t);
        if !hydrated && !phases_agree {
            self.fatal = true;
            self.diagnostics.push(Diagnostic::StructuralMismatch { subtree: t });
            proof {
                assert(self@ =~~= spec_mutate_unguarded(pre, t, phases_agree));
            }
        } else {
            proof {
                assert(self@ =~~= spec_mutate_unguarded(pre, t, phases_agree));
            }
        }
        proof {
            lemma_wf_mutate_unguarded(pre, t, phases_agree);
        }
        !hydrated && !phases_agree
    }

    /// Runs one scheduling turn: the oldest queued continuation, if any.
    /// Returns whether anything ran.
    pub fn step(&mut self) -> (did: bool)
        requires
            wf(old(self)@),
        ensures
            wf(final(self)@),
            final(self)@ == spec_step(old(self)@),
            did == (old(self)@.queue.len() > 0),
    {
        let ghost pre = self@;
        if self.queue.len() == 0 {
            return false;
        }
        let c = self.queue.remove(0);
        let ghost rest = Model { queue: pre.queue.drop_first(), ..pre };
        proof {
            assert(pre.queue[0] == c);
            assert(crate::invariants::cont_ok(pre, pre.queue[0]));
            assert(pre.queue.remove(0) =~= pre.queue.drop_first());
            assert(self@ =~~= rest);
        }
        match c {
            Continuation::Observe { reg, token, signal } => {
                self.observations.push(Observation { reg, token, signal });
                proof {
                    assert(self@ =~~= spec_step(pre));
                }
            },
            Continuation::BarrierMember { barrier } => {
                let ghost kb = crate::model::CKey::Bar(barrier);
                proof {
                    assert(crate::invariants::barrier_wf(pre, barrier as int));
                    crate::counting::lemma_ccount_dequeue(pre.queue, kb);
                    assert(crate::counting::ccount(pre.queue, kb) >= 1);
                    assert(pre.barriers[barrier as int].remaining >= 1);
                }
                let rem0 = self.barriers[barrier].remaining;
                let out = self.barriers[barrier].output;
                let rem = rem0 - 1;
                {
                    let bar = &mut self.barriers[barrier];
                    bar.remaining = rem;
                }
                let ghost counted = Model {
                    barriers: rest.barriers.update(
                        barrier as int,
                        BarrierModel {
                            remaining: rem as nat,
                            ..rest.barriers[barrier as int]
                        },
                    ),
                    ..rest
                };
                proof {
                    assert(self@.barriers =~~= counted.barriers);
                    assert(self@ =~~= counted);
                }
                if rem == 0 {
                    proof {
                        assert(out < pre.signals.len());
                    }
                    self.fire(out);
                    proof {
                        assert(self@ == spec_fire(counted, out));
                        assert(self@ == spec_step(pre));
                    }
                } else {
                    proof {
                        assert(self@ == spec_step(pre));
                    }
                }
            },
            Continuation::GuardInvoke { subtree } => {
                self.guard_run(subtree);
                proof {
                    assert(self@ == spec_invoke_once(rest, subtree));
                    assert(self@ == spec_step(pre));
                }
            },
        }
        proof {
            lemma_wf_step(pre);
        }
        true
    }

    /// Runs turns until no work is pending. Terminates: every turn consumes
    /// one unit of pending work.
    pub fn run_until_idle(&mut self)
        requires
            wf(old(self)@),
        ensures
            wf(final(self)@),
            final(self)@ == spec_run(old(self)@),
            final(self)@.queue.len() == 0,
    {
        let ghost pre = self@;
        while self.queue.len() > 0
            invariant
                wf(self@),
                spec_run(self@) == spec_run(pre),
            decreases measure(self@),
        {
            let ghost before = self@;
            self.step();
            proof {
                lemma_step_measure(before);
            }
        }
    }

    /// Whether a structural mismatch has fatally broken the session.
    pub fn is_fatal(&self) -> (r: bool)
        ensures
            r == self@.fatal,
    {
        self.fatal
    }

    /// How many subtrees exist; every index below this is a valid subtree.
    pub fn subtree_count(&self) -> (n: usize)
        ensures
            n == self@.subtrees.len(),
    {
        self.subtrees.len()
    }

    pub fn subtree_alive(&self, t: usize) -> (r: bool)
        requires
            valid_subtree(self@, t),
        ensures
            r == self@.subtrees[t as int].alive,
    {
        self.subtrees[t].alive
    }

    /// Whether the guard has already run the external mutation for `t`.
    pub fn guard_called(&self, t: usize) -> (r: bool)
        requires
            valid_subtree(self@, t),
        ensures
            r == self@.subtrees[t as int].called,
    {
        self.subtrees[t].called
    }

    /// Who owns the subtree's interior right now.
    pub fn owner_of(&self, t: usize) -> (o: Owner)
        requires
            valid_subtree(self@, t),
        ensures
            o == self@.subtrees[t as int].owner,
    {
        self.subtrees[t].owner
    }

    pub fn content_kind(&self, t: usize) -> (k: ContentKind)
        requires
            valid_subtree(self@, t),
        ensures
            k == self@.subtrees[t as int].kind,
    {
        self.subtrees[t].kind
    }

    /// The subtrees the guard ran the external mutation for, oldest first.
    pub fn invocations(&self) -> (v: &Vec<usize>)
        ensures
            v@ == self@.invocations,
    {
        &self.invocations
    }

    /// How often the external mutation ran for subtree `t` — at most once,
    /// per the guard.
    pub fn invocation_count(&self, t: usize) -> (n: usize)
        ensures
            n as nat == crate::counting::occ(self@.invocations, t),
    {
        let ghost log = self@.invocations;
        proof {
            assert(log.take(0) =~= Seq::<usize>::empty());
        }
        let mut n: usize = 0;
        let mut i: usize = 0;
        while i < self.invocations.len()
            invariant
                i <= self.invocations.len(),
                n <= i,
                log == self@.invocations,
                n as nat == crate::counting::occ(log.take(i as int), t),
            decreases self.invocations.len() - i,
        {
            proof {
                crate::counting::lemma_occ_take_step(log, i as int + 1, t);
            }
            if self.invocations[i] == t {
                n = n + 1;
            }
            i = i + 1;
        }
        proof {
            assert(log.take(log.len() as int) =~= log);
        }
        n
    }

    /// What subscribers recorded when they ran, oldest first.
    pub fn observations(&self) -> (v: &Vec<Observation>)
        ensures
            v@ == self@.observations,
    {
        &self.observations
    }

    /// Suppressed duplicates and fatal mismatches, oldest first.
    pub fn diagnostics(&self) -> (v: &Vec<Diagnostic>)
        ensures
            v@ == self@.diagnostics,
    {
        &self.diagnostics
    }

    /// The subtrees that unguarded mutations touched, oldest first.
    pub fn direct_mutations(&self) -> (v: &Vec<usize>)
        ensures
            v@ == self@.direct_mutations,
    {
        &self.direct_mutations
    }
}

} // verus!
