//! Occurrence counts over the ghost model.
//!
//! The barrier invariant ("`remaining` equals the number of membership
//! continuations still pending") and the subscriber invariant ("every
//! registration runs at most once") are both statements about how often a
//! continuation of a given shape occurs in the waiter lists, the queue and
//! the observation log. This module defines those counts and the lemmas
//! about pushing, concatenating and updating that the preservation proofs in
//! [`crate::invariants`] need.

use vstd::prelude::*;

use crate::model::CKey;
use crate::model::Continuation;
use crate::model::Model;
use crate::model::Observation;
use crate::model::SignalModel;

verus! {

/// Whether a continuation is of the shape a count is keyed on.
pub open spec fn cmatch(c: Continuation, k: CKey) -> bool {
    match k {
        CKey::Bar(b) => c matches Continuation::BarrierMember { barrier } && barrier == b,
        CKey::Reg(r) => c matches Continuation::Observe { reg, .. } && reg == r,
    }
}

/// How many continuations in `cs` match `k`.
pub open spec fn ccount(cs: Seq<Continuation>, k: CKey) -> nat
    decreases cs.len(),
{
    if cs.len() == 0 {
        0
    } else {
        (if cmatch(cs.first(), k) {
            1nat
        } else {
            0nat
        }) + ccount(cs.drop_first(), k)
    }
}

/// How many matching continuations wait across all signals.
pub open spec fn wsum(signals: Seq<SignalModel>, k: CKey) -> nat
    decreases signals.len(),
{
    if signals.len() == 0 {
        0
    } else {
        wsum(signals.drop_last(), k) + ccount(signals.last().waiters, k)
    }
}

/// How many matching continuations are pending anywhere: still waiting on a
/// signal, or already scheduled on the queue.
pub open spec fn pending(m: Model, k: CKey) -> nat {
    wsum(m.signals, k) + ccount(m.queue, k)
}

/// How many observations carry registration identity `r`.
pub open spec fn ocount(os: Seq<Observation>, r: usize) -> nat
    decreases os.len(),
{
    if os.len() == 0 {
        0
    } else {
        (if os.first().reg == r {
            1nat
        } else {
            0nat
        }) + ocount(os.drop_first(), r)
    }
}

/// Everything a subscriber registration `r` did or will do: pending
/// continuations plus recorded observations. At most one in a well-formed
/// state: a registration runs exactly once.
pub open spec fn reg_count(m: Model, r: usize) -> nat {
    pending(m, CKey::Reg(r)) + ocount(m.observations, r)
}

/// How often signal `s` occurs among the members `ms` of a barrier.
pub open spec fn occ(ms: Seq<usize>, s: usize) -> nat
    decreases ms.len(),
{
    if ms.len() == 0 {
        0
    } else {
        (if ms.first() == s {
            1nat
        } else {
            0nat
        }) + occ(ms.drop_first(), s)
    }
}

pub proof fn lemma_ccount_push(cs: Seq<Continuation>, c: Continuation, k: CKey)
    ensures
        ccount(cs.push(c), k) == ccount(cs, k) + (if cmatch(c, k) {
            1nat
        } else {
            0nat
        }),
    decreases cs.len(),
{
    if cs.len() == 0 {
        assert(cs.push(c).len() == 1);
        assert(cs.push(c)[0] == c);
        assert(cs.push(c).first() == c);
        assert(cs.push(c).drop_first() =~= Seq::<Continuation>::empty());
        assert(ccount(cs.push(c).drop_first(), k) == 0);
        assert(ccount(cs.push(c), k) == (if cmatch(c, k) {
            1nat
        } else {
            0nat
        }));
        assert(ccount(cs, k) == 0);
    } else {
        assert(cs.push(c)[0] == cs[0]);
        assert(cs.push(c).drop_first() =~= cs.drop_first().push(c));
        lemma_ccount_push(cs.drop_first(), c, k);
    }
}

pub proof fn lemma_ccount_add(a: Seq<Continuation>, b: Seq<Continuation>, k: CKey)
    ensures
        ccount(a + b, k) == ccount(a, k) + ccount(b, k),
    decreases a.len(),
{
    if a.len() == 0 {
        assert(a + b =~= b);
    } else {
        assert((a + b).drop_first() =~= a.drop_first() + b);
        assert((a + b).first() == a.first());
        lemma_ccount_add(a.drop_first(), b, k);
    }
}

pub proof fn lemma_wsum_push(signals: Seq<SignalModel>, sg: SignalModel, k: CKey)
    ensures
        wsum(signals.push(sg), k) == wsum(signals, k) + ccount(sg.waiters, k),
{
    assert(signals.push(sg).drop_last() =~= signals);
}

pub proof fn lemma_wsum_update(signals: Seq<SignalModel>, i: int, sg: SignalModel, k: CKey)
    requires
        0 <= i < signals.len(),
    ensures
        wsum(signals.update(i, sg), k) + ccount(signals[i].waiters, k) == wsum(signals, k)
            + ccount(sg.waiters, k),
    decreases signals.len(),
{
    let upd = signals.update(i, sg);
    if i == signals.len() - 1 {
        assert(upd.drop_last() =~= signals.drop_last());
        assert(upd.last() == sg);
    } else {
        assert(upd.drop_last() =~= signals.drop_last().update(i, sg));
        assert(upd.last() == signals.last());
        lemma_wsum_update(signals.drop_last(), i, sg, k);
        assert(signals.drop_last()[i] == signals[i]);
    }
}

/// Each signal's own waiter count is part of the total.
pub proof fn lemma_wsum_component(signals: Seq<SignalModel>, i: int, k: CKey)
    requires
        0 <= i < signals.len(),
    ensures
        ccount(signals[i].waiters, k) <= wsum(signals, k),
    decreases signals.len(),
{
    if i < signals.len() - 1 {
        lemma_wsum_component(signals.drop_last(), i, k);
        assert(signals.drop_last()[i] == signals[i]);
    }
}

/// If no signal holds a matching waiter, the total is zero.
pub proof fn lemma_wsum_all_zero(signals: Seq<SignalModel>, k: CKey)
    requires
        forall|i: int|
            0 <= i < signals.len() ==> ccount(#[trigger] signals[i].waiters, k) == 0,
    ensures
        wsum(signals, k) == 0,
    decreases signals.len(),
{
    if signals.len() > 0 {
        assert(forall|i: int|
            0 <= i < signals.drop_last().len() ==> #[trigger] signals.drop_last()[i]
                == signals[i]);
        lemma_wsum_all_zero(signals.drop_last(), k);
        assert(signals.last() == signals[signals.len() - 1]);
    }
}

pub proof fn lemma_ocount_push(os: Seq<Observation>, o: Observation, r: usize)
    ensures
        ocount(os.push(o), r) == ocount(os, r) + (if o.reg == r {
            1nat
        } else {
            0nat
        }),
    decreases os.len(),
{
    if os.len() == 0 {
        assert(os.push(o).len() == 1);
        assert(os.push(o)[0] == o);
        assert(os.push(o).first() == o);
        assert(os.push(o).drop_first() =~= Seq::<Observation>::empty());
        assert(ocount(os.push(o).drop_first(), r) == 0);
        assert(ocount(os.push(o), r) == (if o.reg == r {
            1nat
        } else {
            0nat
        }));
        assert(ocount(os, r) == 0);
    } else {
        assert(os.push(o)[0] == os[0]);
        assert(os.push(o).drop_first() =~= os.drop_first().push(o));
        lemma_ocount_push(os.drop_first(), o, r);
    }
}

/// A signal occurs zero times among the members exactly when it is not a
/// member at all.
pub proof fn lemma_occ_zero(ms: Seq<usize>, s: usize)
    ensures
        (occ(ms, s) == 0) <==> (forall|i: int| 0 <= i < ms.len() ==> ms[i] != s),
    decreases ms.len(),
{
    if ms.len() > 0 {
        lemma_occ_zero(ms.drop_first(), s);
        assert(ms.first() == ms[0]);
        if occ(ms, s) == 0 {
            assert forall|i: int| 0 <= i < ms.len() implies ms[i] != s by {
                if i > 0 {
                    assert(ms.drop_first()[i - 1] == ms[i]);
                    assert(ms.drop_first()[i - 1] != s);
                }
            }
        }
        if forall|i: int| 0 <= i < ms.len() ==> ms[i] != s {
            assert forall|j: int| 0 <= j < ms.drop_first().len() implies ms.drop_first()[j]
                != s by {
                assert(ms.drop_first()[j] == ms[j + 1]);
            }
            assert(occ(ms.drop_first(), s) == 0);
        }
    }
}

/// Appending one continuation to the waiters of signal `s` raises the
/// waiter total for key `k` by that continuation's own contribution.
pub proof fn lemma_wsum_after_waiter_push(
    signals: Seq<SignalModel>,
    s: int,
    c: Continuation,
    k: CKey,
)
    requires
        0 <= s < signals.len(),
    ensures
        wsum(
            signals.update(s, (SignalModel { waiters: signals[s].waiters.push(c), ..signals[s] })),
            k,
        ) == wsum(signals, k) + (if cmatch(c, k) {
            1nat
        } else {
            0nat
        }),
{
    let sg2 = SignalModel { waiters: signals[s].waiters.push(c), ..signals[s] };
    lemma_ccount_push(signals[s].waiters, c, k);
    lemma_wsum_update(signals, s, sg2, k);
}

/// Emptying the waiters of signal `s` lowers the waiter total for key `k`
/// by exactly what waited there.
pub proof fn lemma_wsum_after_waiter_drain(
    signals: Seq<SignalModel>,
    s: int,
    sg2: SignalModel,
    k: CKey,
)
    requires
        0 <= s < signals.len(),
        sg2.waiters.len() == 0,
    ensures
        wsum(signals.update(s, sg2), k) + ccount(signals[s].waiters, k) == wsum(signals, k),
{
    assert(ccount(sg2.waiters, k) == 0);
    lemma_wsum_update(signals, s, sg2, k);
}

pub proof fn lemma_occ_push(ms: Seq<usize>, x: usize, s: usize)
    ensures
        occ(ms.push(x), s) == occ(ms, s) + (if x == s {
            1nat
        } else {
            0nat
        }),
    decreases ms.len(),
{
    if ms.len() == 0 {
        assert(ms.push(x).len() == 1);
        assert(ms.push(x)[0] == x);
        assert(ms.push(x).first() == x);
        assert(ms.push(x).drop_first() =~= Seq::<usize>::empty());
        assert(occ(ms.push(x).drop_first(), s) == 0);
        assert(occ(ms.push(x), s) == (if x == s {
            1nat
        } else {
            0nat
        }));
        assert(occ(ms, s) == 0);
    } else {
        assert(ms.push(x)[0] == ms[0]);
        assert(ms.push(x).drop_first() =~= ms.drop_first().push(x));
        lemma_occ_push(ms.drop_first(), x, s);
    }
}

/// A sequence with no matching continuation counts zero.
pub proof fn lemma_ccount_zero(cs: Seq<Continuation>, k: CKey)
    requires
        forall|i: int| 0 <= i < cs.len() ==> !cmatch(#[trigger] cs[i], k),
    ensures
        ccount(cs, k) == 0,
    decreases cs.len(),
{
    if cs.len() > 0 {
        assert(cs.first() == cs[0]);
        assert forall|i: int| 0 <= i < cs.drop_first().len() implies !cmatch(
            #[trigger] cs.drop_first()[i],
            k,
        ) by {
            assert(cs.drop_first()[i] == cs[i + 1]);
        }
        lemma_ccount_zero(cs.drop_first(), k);
    }
}

/// Taking the head off a sequence takes its contribution off the count.
pub proof fn lemma_ccount_dequeue(cs: Seq<Continuation>, k: CKey)
    requires
        cs.len() > 0,
    ensures
        ccount(cs, k) == ccount(cs.drop_first(), k) + (if cmatch(cs[0], k) {
            1nat
        } else {
            0nat
        }),
{
    assert(cs.first() == cs[0]);
}

/// Extending a prefix by one member extends its occurrence count by that
/// member's contribution.
pub proof fn lemma_occ_take_step(ms: Seq<usize>, i: int, x: usize)
    requires
        1 <= i <= ms.len(),
    ensures
        occ(ms.take(i), x) == occ(ms.take(i - 1), x) + (if ms[i - 1] == x {
            1nat
        } else {
            0nat
        }),
{
    assert(ms.take(i) =~= ms.take(i - 1).push(ms[i - 1]));
    lemma_occ_push(ms.take(i - 1), ms[i - 1], x);
}

/// An index that carries registration `r` makes the count at least one.
pub proof fn lemma_ocount_at_least_one(os: Seq<Observation>, i: int, r: usize)
    requires
        0 <= i < os.len(),
        os[i].reg == r,
    ensures
        ocount(os, r) >= 1,
    decreases os.len(),
{
    assert(os.first() == os[0]);
    if i > 0 {
        assert(os.drop_first()[i - 1] == os[i]);
        lemma_ocount_at_least_one(os.drop_first(), i - 1, r);
    }
}

/// Two distinct indices that both carry registration `r` make the count at
/// least two.
pub proof fn lemma_ocount_at_least_two(os: Seq<Observation>, i: int, j: int, r: usize)
    requires
        0 <= i < j < os.len(),
        os[i].reg == r,
        os[j].reg == r,
    ensures
        ocount(os, r) >= 2,
    decreases os.len(),
{
    assert(os.first() == os[0]);
    if i == 0 {
        assert(os.drop_first()[j - 1] == os[j]);
        lemma_ocount_at_least_one(os.drop_first(), j - 1, r);
    } else {
        assert(os.drop_first()[i - 1] == os[i]);
        assert(os.drop_first()[j - 1] == os[j]);
        lemma_ocount_at_least_two(os.drop_first(), i - 1, j - 1, r);
    }
}

/// In a duplicate-free sequence nothing occurs more than once.
pub proof fn lemma_occ_of_distinct(ms: Seq<usize>, t: usize)
    requires
        forall|i: int, j: int|
            0 <= i < ms.len() && 0 <= j < ms.len() && i != j ==> #[trigger] ms[i]
                != #[trigger] ms[j],
    ensures
        occ(ms, t) <= 1,
    decreases ms.len(),
{
    if ms.len() > 0 {
        assert(ms.first() == ms[0]);
        assert forall|i: int, j: int|
            0 <= i < ms.drop_first().len() && 0 <= j < ms.drop_first().len() && i != j
            implies #[trigger] ms.drop_first()[i] != #[trigger] ms.drop_first()[j] by {
            assert(ms.drop_first()[i] == ms[i + 1]);
            assert(ms.drop_first()[j] == ms[j + 1]);
        }
        lemma_occ_of_distinct(ms.drop_first(), t);
        if ms[0] == t {
            assert forall|i: int|
                0 <= i < ms.drop_first().len() implies (#[trigger] ms.drop_first()[i]) != t by {
                assert(ms.drop_first()[i] == ms[i + 1]);
            }
            lemma_occ_zero(ms.drop_first(), t);
        }
    }
}

/// The total waiter load (the termination measure) shifts with an update
/// exactly by the waiters exchanged.
pub proof fn lemma_load_update(signals: Seq<SignalModel>, i: int, sg: SignalModel)
    requires
        0 <= i < signals.len(),
    ensures
        crate::model::waiter_load(signals.update(i, sg)) + signals[i].waiters.len()
            == crate::model::waiter_load(signals) + sg.waiters.len(),
    decreases signals.len(),
{
    let upd = signals.update(i, sg);
    if i == signals.len() - 1 {
        assert(upd.drop_last() =~= signals.drop_last());
        assert(upd.last() == sg);
    } else {
        assert(upd.drop_last() =~= signals.drop_last().update(i, sg));
        assert(upd.last() == signals.last());
        lemma_load_update(signals.drop_last(), i, sg);
        assert(signals.drop_last()[i] == signals[i]);
    }
}

} // verus!
