//! The ghost model of the coordination state and its transitions.
//!
//! Every executable operation of [`crate::coordinator::Coordinator`] is
//! specified as `final(self)@ == spec_...(old(self)@, ...)` against the
//! transitions defined here, so the laws in [`crate::laws`] can be stated and
//! proved purely over this model.

use vstd::prelude::*;

verus! {

/// Which actor currently owns a subtree's interior content.
#[derive(Clone, Copy, Debug, PartialEq, Eq, Structural)]
pub enum Owner {
    /// The reactive renderer still reconciles the interior.
    Renderer,
    /// The interior was handed to the external mutator; the renderer must not
    /// touch it again.
    External,
    /// The subtree was destroyed and nobody owns it.
    Unowned,
}

/// Whether a subtree's content was part of the static output or arrived later.
#[derive(Clone, Copy, Debug, PartialEq, Eq, Structural)]
pub enum ContentKind {
    StaticInitial,
    DynamicLoaded,
}

/// A queued piece of work: what happens when a signal a continuation was
/// registered on resolves (or, for a deferred guard call, on the next turn).
#[derive(Clone, Copy, Debug, PartialEq, Eq, Structural)]
pub enum Continuation {
    /// A plain subscriber; running it records an [`Observation`].
    Observe { reg: usize, token: u64, signal: usize },
    /// One membership of a convergence barrier; running it counts one member
    /// down and fires the barrier's output when the count reaches zero.
    BarrierMember { barrier: usize },
    /// A scheduled call of the external mutation through the ownership guard.
    GuardInvoke { subtree: usize },
}

/// The visible record a plain subscriber leaves behind when it runs: which
/// registration ran, the token its owner chose, and the signal it was
/// registered on (the argument the continuation is run with).
#[derive(Clone, Copy, Debug, PartialEq, Eq, Structural)]
pub struct Observation {
    pub reg: usize,
    pub token: u64,
    pub signal: usize,
}

/// Internal diagnostics: suppressed or fatal conditions that remain
/// observable without being surfaced as errors.
#[derive(Clone, Copy, Debug, PartialEq, Eq, Structural)]
pub enum Diagnostic {
    /// The guard was asked to run a second time for the same live subtree;
    /// the call was skipped.
    DuplicateInvocation { subtree: usize },
    /// An unguarded mutation changed a subtree before hydration while the two
    /// phases disagree on its markup; the session is lost.
    StructuralMismatch { subtree: usize },
}

/// A key for counting continuations of one shape: the memberships of one
/// barrier, or the work of one subscriber registration.
pub ghost enum CKey {
    Bar(usize),
    Reg(usize),
}

/// The ghost state of one readiness signal.
#[verifier::ext_equal]
pub ghost struct SignalModel {
    /// Once true, never reverts.
    pub resolved: bool,
    /// A barrier output: only its barrier may resolve it.
    pub protected: bool,
    /// Continuations waiting for resolution, in registration order.
    pub waiters: Seq<Continuation>,
}

/// The ghost state of one convergence barrier.
#[verifier::ext_equal]
pub ghost struct BarrierModel {
    /// The signals joined, as given (duplicates count twice).
    pub members: Seq<usize>,
    /// How many member registrations have not yet been counted down.
    pub remaining: nat,
    /// The signal this barrier resolves when all members have resolved.
    pub output: usize,
}

/// The ghost state of one subtree handle.
#[verifier::ext_equal]
pub ghost struct SubtreeModel {
    /// False once the subtree was destroyed; never becomes true again.
    pub alive: bool,
    /// True once the guard ran the external mutation for this identity.
    pub called: bool,
    pub owner: Owner,
    pub kind: ContentKind,
    /// The signal resolved when the renderer commits this subtree to the
    /// live document.
    pub mount_signal: usize,
}

/// The whole coordination state, as mathematics.
#[verifier::ext_equal]
pub ghost struct Model {
    pub signals: Seq<SignalModel>,
    /// Work scheduled for coming turns, oldest first.
    pub queue: Seq<Continuation>,
    pub barriers: Seq<BarrierModel>,
    pub subtrees: Seq<SubtreeModel>,
    /// The subtrees for which the guard ran the external mutation, in order.
    pub invocations: Seq<usize>,
    /// The subtrees an unguarded mutation bypassed the guard for, in order.
    pub direct_mutations: Seq<usize>,
    /// What plain subscribers recorded when they ran, in order.
    pub observations: Seq<Observation>,
    pub diagnostics: Seq<Diagnostic>,
    /// The next free registration identity for plain subscribers.
    pub next_reg: usize,
    /// True once a structural mismatch killed the session.
    pub fatal: bool,
}

/// The index of the process-wide hydration broadcast signal, created by
/// [`spec_init`] before anything else.
pub open spec fn hydration_signal() -> usize {
    0
}

/// The initial state: only the (pending) hydration broadcast exists.
pub open spec fn spec_init() -> Model {
    Model {
        signals: seq![
            SignalModel { resolved: false, protected: false, waiters: Seq::empty() },
        ],
        queue: Seq::empty(),
        barriers: Seq::empty(),
        subtrees: Seq::empty(),
        invocations: Seq::empty(),
        direct_mutations: Seq::empty(),
        observations: Seq::empty(),
        diagnostics: Seq::empty(),
        next_reg: 0,
        fatal: false,
    }
}

pub open spec fn valid_signal(m: Model, s: usize) -> bool {
    s < m.signals.len()
}

pub open spec fn valid_subtree(m: Model, t: usize) -> bool {
    t < m.subtrees.len()
}

pub open spec fn valid_barrier(m: Model, b: usize) -> bool {
    b < m.barriers.len()
}

/// Whether the interactive phase has taken over the static output.
pub open spec fn is_hydrated(m: Model) -> bool {
    valid_signal(m, hydration_signal()) && m.signals[hydration_signal() as int].resolved
}

/// Appends a fresh, unresolved signal; its index is the old `signals.len()`.
pub open spec fn spec_create_signal(m: Model, protected: bool) -> Model {
    Model {
        signals: m.signals.push(
            SignalModel { resolved: false, protected, waiters: Seq::empty() },
        ),
        ..m
    }
}

/// Resolution itself, without the protection check: marks the signal
/// resolved and schedules all of its waiters, in registration order, on
/// fresh turns. A no-op on a signal that has already resolved.
pub open spec fn spec_fire(m: Model, s: usize) -> Model {
    if valid_signal(m, s) && !m.signals[s as int].resolved {
        Model {
            signals: m.signals.update(
                s as int,
                SignalModel { resolved: true, waiters: Seq::empty(), ..m.signals[s as int] },
            ),
            queue: m.queue + m.signals[s as int].waiters,
            ..m
        }
    } else {
        m
    }
}

/// What `resolve` does: like [`spec_fire`], but a no-op on a barrier output,
/// which only its own barrier resolves.
pub open spec fn spec_resolve(m: Model, s: usize) -> Model {
    if valid_signal(m, s) && !m.signals[s as int].protected {
        spec_fire(m, s)
    } else {
        m
    }
}

/// Registers a plain subscriber on a signal. If the signal has already
/// resolved the continuation is scheduled for the next turn (never skipped,
/// never run inline); otherwise it joins the signal's waiters.
pub open spec fn spec_on_ready(m: Model, s: usize, token: u64) -> Model {
    if valid_signal(m, s) && m.next_reg < usize::MAX {
        let c = Continuation::Observe { reg: m.next_reg, token, signal: s };
        let bumped = (m.next_reg + 1) as usize;
        if m.signals[s as int].resolved {
            Model { queue: m.queue.push(c), next_reg: bumped, ..m }
        } else {
            Model {
                signals: m.signals.update(
                    s as int,
                    SignalModel {
                        waiters: m.signals[s as int].waiters.push(c),
                        ..m.signals[s as int]
                    },
                ),
                next_reg: bumped,
                ..m
            }
        }
    } else {
        m
    }
}

/// Registers one barrier membership on a signal: scheduled at once if the
/// member has already resolved (it must be counted, not dropped), queued as
/// a waiter otherwise.
pub open spec fn spec_register_member(m: Model, b: usize, s: usize) -> Model {
    if valid_signal(m, s) {
        let c = Continuation::BarrierMember { barrier: b };
        if m.signals[s as int].resolved {
            Model { queue: m.queue.push(c), ..m }
        } else {
            Model {
                signals: m.signals.update(
                    s as int,
                    SignalModel {
                        waiters: m.signals[s as int].waiters.push(c),
                        ..m.signals[s as int]
                    },
                ),
                ..m
            }
        }
    } else {
        m
    }
}

/// Registers the first `i` members of `ms` for barrier `b`, in order.
pub open spec fn spec_register_upto(m: Model, b: usize, ms: Seq<usize>, i: int) -> Model
    decreases i,
{
    if i <= 0 {
        m
    } else {
        spec_register_member(spec_register_upto(m, b, ms, i - 1), b, ms[i - 1])
    }
}

/// Joins a set of signals: creates a protected output signal and a barrier
/// counting the members, registers every member, and, for an empty set,
/// fires the output at once (every member of the empty set has resolved).
pub open spec fn spec_join(m: Model, ms: Seq<usize>) -> Model {
    let out = m.signals.len() as usize;
    let b = m.barriers.len() as usize;
    let with_output = spec_create_signal(m, true);
    let with_barrier = Model {
        barriers: with_output.barriers.push(
            BarrierModel { members: ms, remaining: ms.len(), output: out },
        ),
        ..with_output
    };
    let registered = spec_register_upto(with_barrier, b, ms, ms.len() as int);
    if ms.len() == 0 {
        spec_fire(registered, out)
    } else {
        registered
    }
}

/// The ownership guard. For a live subtree whose mutation has not run, it
/// runs it: records the invocation and hands the interior to the external
/// mutator. A second request for the same live identity is skipped and
/// leaves a diagnostic. A request for a destroyed subtree is dropped
/// silently (the stale-continuation rule).
pub open spec fn spec_invoke_once(m: Model, t: usize) -> Model {
    if valid_subtree(m, t) {
        let st = m.subtrees[t as int];
        if st.alive && !st.called {
            Model {
                subtrees: m.subtrees.update(
                    t as int,
                    SubtreeModel { called: true, owner: Owner::External, ..st },
                ),
                invocations: m.invocations.push(t),
                ..m
            }
        } else if st.alive && st.called {
            Model {
                diagnostics: m.diagnostics.push(
                    Diagnostic::DuplicateInvocation { subtree: t },
                ),
                ..m
            }
        } else {
            m
        }
    } else {
        m
    }
}

/// Registers a guard call to run when a signal (typically a barrier output)
/// resolves.
pub open spec fn spec_invoke_when(m: Model, s: usize, t: usize) -> Model {
    if valid_signal(m, s) && valid_subtree(m, t) {
        let c = Continuation::GuardInvoke { subtree: t };
        if m.signals[s as int].resolved {
            Model { queue: m.queue.push(c), ..m }
        } else {
            Model {
                signals: m.signals.update(
                    s as int,
                    SignalModel {
                        waiters: m.signals[s as int].waiters.push(c),
                        ..m.signals[s as int]
                    },
                ),
                ..m
            }
        }
    } else {
        m
    }
}

/// The post-commit strategy: schedules a guard call unconditionally for the
/// next turn, with no precondition checked. The guard still keeps it to at
/// most one execution per subtree lifetime.
pub open spec fn spec_defer_invoke(m: Model, t: usize) -> Model {
    if valid_subtree(m, t) {
        Model { queue: m.queue.push(Continuation::GuardInvoke { subtree: t }), ..m }
    } else {
        m
    }
}

/// Appends a fresh subtree owned by the renderer, with a fresh mount signal;
/// the subtree's index is the old `subtrees.len()`.
pub open spec fn spec_create_subtree(m: Model, kind: ContentKind) -> Model {
    let mount = m.signals.len() as usize;
    let with_signal = spec_create_signal(m, false);
    Model {
        subtrees: with_signal.subtrees.push(
            SubtreeModel {
                alive: true,
                called: false,
                owner: Owner::Renderer,
                kind,
                mount_signal: mount,
            },
        ),
        ..with_signal
    }
}

/// Destroys a subtree: it stops being alive, releases ownership, and any
/// continuation tied to it becomes stale (the guard drops it on arrival).
pub open spec fn spec_destroy_subtree(m: Model, t: usize) -> Model {
    if valid_subtree(m, t) {
        Model {
            subtrees: m.subtrees.update(
                t as int,
                SubtreeModel { alive: false, owner: Owner::Unowned, ..m.subtrees[t as int] },
            ),
            ..m
        }
    } else {
        m
    }
}

/// An unguarded external mutation, the failure class the guard exists to
/// prevent: the routine runs on the subtree directly, bypassing the guard.
/// Before hydration, if the static and interactive phases disagree on the
/// markup (`phases_agree` is false), the session is fatally broken.
pub open spec fn spec_mutate_unguarded(m: Model, t: usize, phases_agree: bool) -> Model {
    if valid_subtree(m, t) {
        let mutated = Model { direct_mutations: m.direct_mutations.push(t), ..m };
        if !is_hydrated(m) && !phases_agree {
            Model {
                fatal: true,
                diagnostics: mutated.diagnostics.push(
                    Diagnostic::StructuralMismatch { subtree: t },
                ),
                ..mutated
            }
        } else {
            mutated
        }
    } else {
        m
    }
}

/// Wraps a third-party load as a readiness signal. The caller reports
/// whether the resource's "already loaded" flag was set at registration
/// time; if so the signal resolves at once (late observers are still served
/// on fresh turns), otherwise it stays pending until the load event arrives
/// and `resolve` is called — a second resolution is then suppressed by
/// idempotence.
pub open spec fn spec_external_resource(m: Model, already_loaded: bool) -> Model {
    let created = spec_create_signal(m, false);
    if already_loaded {
        spec_resolve(created, m.signals.len() as usize)
    } else {
        created
    }
}

/// One scheduling turn: runs the oldest queued continuation, if any.
pub open spec fn spec_step(m: Model) -> Model {
    if m.queue.len() == 0 {
        m
    } else {
        let c = m.queue[0];
        let rest = Model { queue: m.queue.drop_first(), ..m };
        match c {
            Continuation::Observe { reg, token, signal } => Model {
                observations: rest.observations.push(Observation { reg, token, signal }),
                ..rest
            },
            Continuation::BarrierMember { barrier } => {
                if valid_barrier(rest, barrier) && rest.barriers[barrier as int].remaining >= 1 {
                    let bar = rest.barriers[barrier as int];
                    let rem = (bar.remaining - 1) as nat;
                    let counted = Model {
                        barriers: rest.barriers.update(
                            barrier as int,
                            BarrierModel { remaining: rem, ..bar },
                        ),
                        ..rest
                    };
                    if rem == 0 {
                        spec_fire(counted, bar.output)
                    } else {
                        counted
                    }
                } else {
                    rest
                }
            },
            Continuation::GuardInvoke { subtree } => spec_invoke_once(rest, subtree),
        }
    }
}

/// The total amount of pending work: queued continuations plus everything
/// still waiting on unresolved signals. Every turn strictly decreases it,
/// so draining the queue terminates.
pub open spec fn waiter_load(signals: Seq<SignalModel>) -> nat
    decreases signals.len(),
{
    if signals.len() == 0 {
        0
    } else {
        waiter_load(signals.drop_last()) + signals.last().waiters.len()
    }
}

pub open spec fn measure(m: Model) -> nat {
    m.queue.len() + waiter_load(m.signals)
}

} // verus!
