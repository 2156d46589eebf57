//! End-to-end checks of the coordination core: signals, barriers, the
//! ownership guard and the turn-based scheduler.

use converge::coordinator::Coordinator;
use converge::model::ContentKind;
use converge::model::Diagnostic;
use converge::model::Owner;

/// Resolving a signal more than once has the same observable effect as
/// resolving it once: subscribers still run exactly once.
#[test]
fn resolve_is_idempotent() {
    let mut c = Coordinator::new();
    let s = c.create_signal();
    let _reg = c.on_ready(s, 7);
    c.resolve(s);
    c.resolve(s);
    c.resolve(s);
    c.run_until_idle();
    assert!(c.is_resolved(s));
    let obs = c.observations();
    assert_eq!(obs.len(), 1);
    assert_eq!(obs[0].token, 7);
    assert_eq!(obs[0].signal, s);
}

/// A subscriber registered after resolution runs with the same argument as
/// one registered before, and each runs exactly once.
#[test]
fn late_subscriber_runs_once_with_same_argument() {
    let mut c = Coordinator::new();
    let s = c.create_signal();
    let early = c.on_ready(s, 1);
    c.resolve(s);
    let late = c.on_ready(s, 2);
    c.run_until_idle();
    let obs = c.observations();
    assert_eq!(obs.len(), 2);
    assert!(obs.iter().any(|o| o.reg == early && o.token == 1 && o.signal == s));
    assert!(obs.iter().any(|o| o.reg == late && o.token == 2 && o.signal == s));
    // the late subscriber was scheduled on a fresh turn, not skipped and
    // not run inline: before the turns ran it had not fired yet
    let mut c2 = Coordinator::new();
    let s2 = c2.create_signal();
    c2.resolve(s2);
    c2.run_until_idle();
    c2.on_ready(s2, 9);
    assert_eq!(c2.observations().len(), 0);
    c2.run_until_idle();
    assert_eq!(c2.observations().len(), 1);
}

fn barrier_fires_once_for_order(order: &[usize]) {
    let n = order.len();
    let mut c = Coordinator::new();
    let mut members = Vec::new();
    for _ in 0..n {
        members.push(c.create_signal());
    }
    let out = c.join(&members);
    c.on_ready(out, 42);
    c.run_until_idle();
    for (done, &pick) in order.iter().enumerate() {
        assert!(
            !c.is_resolved(out),
            "output resolved after only {done} of {n} members"
        );
        c.resolve(members[pick]);
        c.run_until_idle();
    }
    assert!(c.is_resolved(out), "output unresolved after all members");
    let fired = c.observations().iter().filter(|o| o.token == 42).count();
    assert_eq!(fired, 1, "output fired {fired} times for order {order:?}");
    // resolving members again changes nothing
    for &m in &members {
        c.resolve(m);
    }
    c.run_until_idle();
    let fired = c.observations().iter().filter(|o| o.token == 42).count();
    assert_eq!(fired, 1);
}

/// The barrier output resolves exactly once, only after every member
/// resolved, in every resolution order of a three-member set.
#[test]
fn barrier_all_orders_of_three() {
    let perms: [[usize; 3]; 6] =
        [[0, 1, 2], [0, 2, 1], [1, 0, 2], [1, 2, 0], [2, 0, 1], [2, 1, 0]];
    for p in perms {
        barrier_fires_once_for_order(&p);
    }
}

/// The same, for every one of the 24 orders of a four-member set.
#[test]
fn barrier_all_orders_of_four() {
    for a in 0..4usize {
        for b in 0..4usize {
            for d in 0..4usize {
                for e in 0..4usize {
                    let p = [a, b, d, e];
                    let mut seen = [false; 4];
                    for &x in &p {
                        seen[x] = true;
                    }
                    if seen.iter().all(|&x| x) {
                        barrier_fires_once_for_order(&p);
                    }
                }
            }
        }
    }
}

/// Members that already resolved before the join are counted immediately,
/// not dropped.
#[test]
fn barrier_counts_already_resolved_members() {
    let mut c = Coordinator::new();
    let a = c.create_signal();
    let b = c.create_signal();
    c.resolve(a);
    c.run_until_idle();
    let out = c.join(&vec![a, b]);
    c.run_until_idle();
    assert!(!c.is_resolved(out));
    c.resolve(b);
    c.run_until_idle();
    assert!(c.is_resolved(out));
}

/// Joining the empty set resolves at once: every member of it has resolved.
#[test]
fn empty_join_resolves() {
    let mut c = Coordinator::new();
    let out = c.join(&Vec::new());
    c.run_until_idle();
    assert!(c.is_resolved(out));
}

/// A barrier output is resolved only by its own barrier: an outside
/// `resolve` on it is a no-op.
#[test]
fn barrier_output_cannot_be_resolved_from_outside() {
    let mut c = Coordinator::new();
    let a = c.create_signal();
    let out = c.join(&vec![a]);
    c.resolve(out);
    c.run_until_idle();
    assert!(!c.is_resolved(out));
    c.resolve(a);
    c.run_until_idle();
    assert!(c.is_resolved(out));
}

/// `invoke_once` twice for the same identity executes the wrapped mutation
/// exactly once; once each for two identities executes it twice.
#[test]
fn guard_runs_once_per_identity() {
    let mut c = Coordinator::new();
    let t1 = c.create_subtree(ContentKind::DynamicLoaded);
    let t2 = c.create_subtree(ContentKind::DynamicLoaded);
    assert!(c.invoke_once(t1));
    assert!(!c.invoke_once(t1));
    assert_eq!(c.invocations().as_slice(), &[t1]);
    assert_eq!(c.invocation_count(t1), 1);
    assert_eq!(
        c.diagnostics().as_slice(),
        &[Diagnostic::DuplicateInvocation { subtree: t1 }]
    );
    assert!(c.invoke_once(t2));
    assert_eq!(c.invocations().as_slice(), &[t1, t2]);
    assert_eq!(c.invocation_count(t2), 1);
}

/// Ownership moves one way: renderer until the guard runs, then external;
/// destroying releases it entirely.
#[test]
fn ownership_moves_one_way() {
    let mut c = Coordinator::new();
    let t = c.create_subtree(ContentKind::DynamicLoaded);
    assert_eq!(c.owner_of(t), Owner::Renderer);
    c.invoke_once(t);
    assert_eq!(c.owner_of(t), Owner::External);
    c.destroy_subtree(t);
    assert_eq!(c.owner_of(t), Owner::Unowned);
}

/// Destroying a subtree before its barrier fires prevents the wrapped
/// mutation from ever executing for that identity, even though every
/// joined signal later resolves; the stale continuation is dropped without
/// an error.
#[test]
fn destroyed_subtree_is_never_invoked() {
    let mut c = Coordinator::new();
    let hydration = c.hydration_broadcast();
    let t = c.create_subtree(ContentKind::DynamicLoaded);
    let mount = c.mount_signal(t);
    let out = c.join(&vec![hydration, mount]);
    c.invoke_when(out, t);
    c.subtree_committed(t);
    c.run_until_idle();
    c.destroy_subtree(t);
    c.resolve(hydration);
    c.run_until_idle();
    assert!(c.is_resolved(out), "the barrier itself still fires");
    assert_eq!(c.invocation_count(t), 0);
    assert!(c.invocations().is_empty());
    assert!(!c.subtree_alive(t));
    assert!(!c.guard_called(t));
    assert!(c.diagnostics().is_empty(), "a stale continuation is dropped silently");
}

/// Hydration broadcast unresolved, mount signal resolved, external
/// resource signal resolved: the barrier over all three must stay
/// unresolved.
#[test]
fn barrier_waits_for_hydration() {
    let mut c = Coordinator::new();
    let hydration = c.hydration_broadcast();
    let t = c.create_subtree(ContentKind::DynamicLoaded);
    let mount = c.mount_signal(t);
    let resource = c.external_resource_signal(true);
    let out = c.join(&vec![hydration, mount, resource]);
    c.invoke_when(out, t);
    c.subtree_committed(t);
    c.run_until_idle();
    assert!(c.is_resolved(mount));
    assert!(c.is_resolved(resource));
    assert!(!c.is_hydrated());
    assert!(!c.is_resolved(out));
    assert!(c.invocations().is_empty());
    // this also covers the load-failure mode: while any member never
    // resolves, the barrier never fires, and nothing crashes
    c.resolve(hydration);
    c.run_until_idle();
    assert!(c.is_resolved(out));
    assert_eq!(c.invocations().as_slice(), &[t]);
}

/// An external resource whose "already loaded" flag is set at registration
/// resolves promptly without any load event — and a load event that fires
/// anyway is suppressed.
#[test]
fn already_loaded_resource_resolves_without_event() {
    let mut c = Coordinator::new();
    let resource = c.external_resource_signal(true);
    assert!(c.is_resolved(resource));
    let reg = c.on_ready(resource, 5);
    c.run_until_idle();
    let obs = c.observations();
    assert_eq!(obs.len(), 1);
    assert_eq!((obs[0].reg, obs[0].token, obs[0].signal), (reg, 5, resource));
    // the load event arriving later is the double-resolution case
    c.resolve(resource);
    c.run_until_idle();
    assert_eq!(c.observations().len(), 1);
}

/// A resource that is not yet loaded stays pending until the load event.
#[test]
fn pending_resource_waits_for_event() {
    let mut c = Coordinator::new();
    let resource = c.external_resource_signal(false);
    assert!(!c.is_resolved(resource));
    c.on_ready(resource, 5);
    c.run_until_idle();
    assert!(c.observations().is_empty());
    c.resolve(resource);
    c.run_until_idle();
    assert_eq!(c.observations().len(), 1);
}

/// Two independent subtrees, each with its own mount signal, joined
/// against the single shared hydration broadcast: resolving the broadcast
/// once makes both barriers fire, each exactly once.
#[test]
fn shared_broadcast_fans_out() {
    let mut c = Coordinator::new();
    let hydration = c.hydration_broadcast();
    let t1 = c.create_subtree(ContentKind::DynamicLoaded);
    let t2 = c.create_subtree(ContentKind::DynamicLoaded);
    let m1 = c.mount_signal(t1);
    let m2 = c.mount_signal(t2);
    let out1 = c.join(&vec![hydration, m1]);
    let out2 = c.join(&vec![hydration, m2]);
    c.invoke_when(out1, t1);
    c.invoke_when(out2, t2);
    c.subtree_committed(t1);
    c.subtree_committed(t2);
    c.run_until_idle();
    assert!(!c.is_resolved(out1));
    assert!(!c.is_resolved(out2));
    c.resolve(hydration);
    c.run_until_idle();
    assert!(c.is_resolved(out1));
    assert!(c.is_resolved(out2));
    assert_eq!(c.invocation_count(t1), 1);
    assert_eq!(c.invocation_count(t2), 1);
    assert_eq!(c.invocations().len(), 2);
}

/// The post-commit strategy may schedule the guard many times; the guard
/// still runs the mutation once and records the duplicates.
#[test]
fn deferred_invocation_stays_idempotent() {
    let mut c = Coordinator::new();
    let t = c.create_subtree(ContentKind::DynamicLoaded);
    c.defer_invoke(t);
    c.defer_invoke(t);
    c.defer_invoke(t);
    c.run_until_idle();
    assert_eq!(c.invocation_count(t), 1);
    assert_eq!(
        c.diagnostics()
            .iter()
            .filter(|d| matches!(d, Diagnostic::DuplicateInvocation { subtree } if *subtree == t))
            .count(),
        2
    );
}

/// Mutating a subtree outside the guard before hydration, while the two
/// phases disagree on its markup, breaks the session fatally and leaves
/// the structural-mismatch diagnostic.
#[test]
fn unguarded_mutation_before_hydration_is_fatal() {
    let mut c = Coordinator::new();
    let t = c.create_subtree(ContentKind::DynamicLoaded);
    assert!(!c.is_fatal());
    let broke = c.mutate_unguarded(t, false);
    assert!(broke);
    assert!(c.is_fatal());
    assert_eq!(
        c.diagnostics().as_slice(),
        &[Diagnostic::StructuralMismatch { subtree: t }]
    );
    assert_eq!(c.direct_mutations().as_slice(), &[t]);
}

/// The same mutation is harmless once hydration has completed, or when the
/// phases agree on the markup.
#[test]
fn unguarded_mutation_after_hydration_is_not_fatal() {
    let mut c = Coordinator::new();
    let hydration = c.hydration_broadcast();
    let t = c.create_subtree(ContentKind::StaticInitial);
    assert!(!c.mutate_unguarded(t, true));
    c.resolve(hydration);
    c.run_until_idle();
    assert!(c.is_hydrated());
    assert!(!c.mutate_unguarded(t, false));
    assert!(!c.is_fatal());
    assert!(c.diagnostics().is_empty());
}

/// Subscribers of one signal run in registration order; a barrier fires
/// only after the member continuations of the tick that completed it.
#[test]
fn subscribers_run_in_registration_order() {
    let mut c = Coordinator::new();
    let s = c.create_signal();
    c.on_ready(s, 10);
    c.on_ready(s, 11);
    c.on_ready(s, 12);
    c.resolve(s);
    c.run_until_idle();
    let tokens: Vec<u64> = c.observations().iter().map(|o| o.token).collect();
    assert_eq!(tokens, vec![10, 11, 12]);
}

/// A remount creates a fresh identity with a fresh guard: the old identity
/// stays dead and the new one may run once.
#[test]
fn remount_gets_fresh_guard() {
    let mut c = Coordinator::new();
    let t = c.create_subtree(ContentKind::DynamicLoaded);
    c.invoke_once(t);
    c.destroy_subtree(t);
    let t2 = c.create_subtree(ContentKind::DynamicLoaded);
    assert_ne!(t, t2);
    assert!(c.invoke_once(t2));
    assert_eq!(c.invocation_count(t), 1);
    assert_eq!(c.invocation_count(t2), 1);
}
