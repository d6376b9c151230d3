//! Properties of the cell tower anomaly analyzer that span calls.

use vstd::prelude::*;

use crate::cell_tower_anomaly::{
    bits_value, identity_text, join, seq_max, seq_min, seq_sum, sib1_identity, strong_and_stable,
    two_to, AnalyzerView, CellIdentityView, EventDetailView, EventType, EventView, InformationElement,
    MIN_RSRP_SAMPLES, NEIGHBOR_STREAK_THRESHOLD, RSRP_WINDOW, STABLE_SPREAD, STRONG_RSRP,
};

use crate::opencellid::{lemma_split_on_nonempty, split_on};
use crate::text::decimal;

verus! {

/// Serving-cell measurements of one PCI, fed in order: the final state and
/// the number of events raised.
pub open spec fn serving_run(s: AnalyzerView, pci: u16, samples: Seq<i32>) -> (AnalyzerView, nat)
    decreases samples.len(),
{
    if samples.len() == 0 {
        (s, 0)
    } else {
        let before = serving_run(s, pci, samples.drop_last());
        let after = before.0.on_serving(pci, samples.last());
        (after.0, before.1 + if after.1 is Some {
            1nat
        } else {
            0nat
        })
    }
}

/// `k` neighbor reports that each list `cells` cells: the final state and the
/// number of events raised.
pub open spec fn neighbor_run(s: AnalyzerView, cells: nat, k: nat) -> (AnalyzerView, nat)
    decreases k,
{
    if k == 0 {
        (s, 0)
    } else {
        let before = neighbor_run(s, cells, (k - 1) as nat);
        let after = before.0.on_neighbors(cells);
        (after.0, before.1 + if after.1 is Some {
            1nat
        } else {
            0nat
        })
    }
}

/// Every step keeps the analyzer's state well formed.
pub proof fn lemma_step_keeps_wf(s: AnalyzerView, ie: InformationElement)
    requires
        s.wf(),
        s.accepts(ie),
    ensures
        s.step(ie).0.wf(),
{
}

/// A decoded SIB1 only relabels the serving cell: no event, and the
/// heuristics' state is untouched.
pub proof fn lemma_sib1_only_relabels(s: AnalyzerView, ie: InformationElement)
    requires
        ie is Sib1,
    ensures
        s.step(ie).1 is None,
        s.step(ie).0.serving_pci == s.serving_pci,
        s.step(ie).0.rsrp_window == s.rsrp_window,
        s.step(ie).0.signal_anomaly_flagged_for_pci == s.signal_anomaly_flagged_for_pci,
        s.step(ie).0.neighbor_streak == s.neighbor_streak,
        s.step(ie).0.neighbor_streak_flagged == s.neighbor_streak_flagged,
{
}

/// A measurement of a new serving cell starts a fresh baseline holding just
/// that sample, and never fires on stale samples of the previous cell.
pub proof fn lemma_new_cell_restarts_baseline(s: AnalyzerView, pci: u16, rsrp: i32)
    requires
        s.serving_pci != Some(pci),
    ensures
        s.on_serving(pci, rsrp).0.rsrp_window == seq![rsrp],
        s.on_serving(pci, rsrp).0.serving_pci == Some(pci),
        s.on_serving(pci, rsrp).0.signal_anomaly_flagged_for_pci is None,
        s.on_serving(pci, rsrp).1 is None,
{
    assert(Seq::<i32>::empty().push(rsrp) =~= seq![rsrp]);
}

/// A signal event only ever reports a window of at least
/// [`MIN_RSRP_SAMPLES`] samples whose mean is above [`STRONG_RSRP`] and whose
/// spread is at most [`STABLE_SPREAD`].
pub proof fn lemma_signal_event_needs_evidence(s: AnalyzerView, pci: u16, rsrp: i32)
    requires
        s.wf(),
        s.on_serving(pci, rsrp).1 is Some,
    ensures
        ({
            let ev = s.on_serving(pci, rsrp).1->0;
            let w = s.on_serving(pci, rsrp).0.rsrp_window;
            &&& w.len() >= MIN_RSRP_SAMPLES
            &&& strong_and_stable(w)
            &&& ev.detail == (EventDetailView::StrongStableSignal {
                pci,
                cell: s.cell_label(),
                rsrp_sum: seq_sum(w),
                samples: w.len(),
                spread: seq_max(w) - seq_min(w),
            })
        }),
{
}

/// Once the signal anomaly is flagged for the serving cell, further
/// measurements of that cell never raise it again.
pub proof fn lemma_flagged_cell_stays_quiet(s: AnalyzerView, pci: u16, samples: Seq<i32>)
    requires
        s.wf(),
        s.signal_anomaly_flagged_for_pci == Some(pci),
    ensures
        serving_run(s, pci, samples).1 == 0,
        serving_run(s, pci, samples).0.signal_anomaly_flagged_for_pci == Some(pci),
        serving_run(s, pci, samples).0.wf(),
    decreases samples.len(),
{
    if samples.len() > 0 {
        lemma_flagged_cell_stays_quiet(s, pci, samples.drop_last());
    }
}

proof fn lemma_constant_window(r: i32, m: nat)
    requires
        m >= 1,
    ensures
        seq_sum(Seq::new(m, |i: int| r)) == m * r,
        seq_min(Seq::new(m, |i: int| r)) == r,
        seq_max(Seq::new(m, |i: int| r)) == r,
    decreases m,
{
    let w = Seq::new(m, |i: int| r);
    if m == 1 {
        assert(w.drop_last() =~= Seq::<i32>::empty());
        assert(seq_sum(Seq::<i32>::empty()) == 0);
    } else {
        lemma_constant_window(r, (m - 1) as nat);
        assert(w.drop_last() =~= Seq::new((m - 1) as nat, |i: int| r));
        assert((m - 1) * r + r == m * r) by (nonlinear_arith);
    }
}

/// A steady strong signal: after `k` identical samples of a new serving cell,
/// the window holds `min(k, RSRP_WINDOW)` copies, and the anomaly is flagged
/// from the [`MIN_RSRP_SAMPLES`]-th sample on.
proof fn lemma_steady_run_state(s: AnalyzerView, pci: u16, rsrp: i32, k: nat)
    requires
        s.wf(),
        s.serving_pci != Some(pci),
        rsrp > STRONG_RSRP,
        k >= 1,
    ensures
        ({
            let (t, n) = serving_run(s, pci, Seq::new(k, |i: int| rsrp));
            &&& t.serving_pci == Some(pci)
            &&& t.rsrp_window == Seq::new(
                if k > RSRP_WINDOW {
                    RSRP_WINDOW as nat
                } else {
                    k
                },
                |i: int| rsrp,
            )
            &&& t.signal_anomaly_flagged_for_pci == if k >= MIN_RSRP_SAMPLES {
                Some(pci)
            } else {
                None
            }
            &&& n == if k >= MIN_RSRP_SAMPLES {
                1nat
            } else {
                0nat
            }
            &&& t.neighbor_streak_flagged == s.neighbor_streak_flagged
        }),
    decreases k,
{
    let samples = Seq::new(k, |i: int| rsrp);
    if k == 1 {
        assert(samples.drop_last() =~= Seq::<i32>::empty());
        assert(Seq::<i32>::empty().push(rsrp) =~= Seq::new(1, |i: int| rsrp));
    } else {
        lemma_steady_run_state(s, pci, rsrp, (k - 1) as nat);
        assert(samples.drop_last() =~= Seq::new((k - 1) as nat, |i: int| rsrp));
        let before = serving_run(s, pci, samples.drop_last()).0;
        let m: nat = if k - 1 > RSRP_WINDOW {
            RSRP_WINDOW as nat
        } else {
            (k - 1) as nat
        };
        let m2: nat = if k > RSRP_WINDOW {
            RSRP_WINDOW as nat
        } else {
            k
        };
        let pushed = Seq::new(m, |i: int| rsrp).push(rsrp);
        if m + 1 > RSRP_WINDOW {
            assert(pushed.drop_first() =~= Seq::new(m2, |i: int| rsrp));
        } else {
            assert(pushed =~= Seq::new(m2, |i: int| rsrp));
        }
        assert(before.window_after(pci, rsrp) == Seq::new(m2, |i: int| rsrp));
        lemma_constant_window(rsrp, m2);
        assert(m2 * rsrp > STRONG_RSRP * m2) by (nonlinear_arith)
            requires
                m2 >= 1,
                rsrp > STRONG_RSRP,
        ;
    }
}

/// A steady, strong signal from a new serving cell is reported exactly once:
/// no event for fewer than [`MIN_RSRP_SAMPLES`] samples, one event from then
/// on, however many samples follow.
pub proof fn lemma_steady_strong_signal_fires_once(s: AnalyzerView, pci: u16, rsrp: i32, k: nat)
    requires
        s.wf(),
        s.serving_pci != Some(pci),
        rsrp > STRONG_RSRP,
    ensures
        serving_run(s, pci, Seq::new(k, |i: int| rsrp)).1 == if k >= MIN_RSRP_SAMPLES {
            1nat
        } else {
            0nat
        },
{
    if k == 0 {
        assert(Seq::new(0, |i: int| rsrp).len() == 0);
    } else {
        lemma_steady_run_state(s, pci, rsrp, k);
    }
}

/// A report listing more than one neighbor clears the sparse-neighbor streak
/// and its flag, and raises nothing.
pub proof fn lemma_normal_report_resets_streak(s: AnalyzerView, cells: nat)
    requires
        cells > 1,
    ensures
        s.on_neighbors(cells).0.neighbor_streak == 0,
        !s.on_neighbors(cells).0.neighbor_streak_flagged,
        s.on_neighbors(cells).1 is None,
{
}

proof fn lemma_sparse_run_state(s: AnalyzerView, cells: nat, k: nat)
    requires
        s.neighbor_streak == 0,
        !s.neighbor_streak_flagged,
        cells <= 1,
        k < u32::MAX,
    ensures
        neighbor_run(s, cells, k).0.neighbor_streak == k,
        neighbor_run(s, cells, k).0.neighbor_streak_flagged == (k >= NEIGHBOR_STREAK_THRESHOLD),
        neighbor_run(s, cells, k).1 == if k >= NEIGHBOR_STREAK_THRESHOLD {
            1nat
        } else {
            0nat
        },
        neighbor_run(s, cells, k).0.signal_anomaly_flagged_for_pci
            == s.signal_anomaly_flagged_for_pci,
    decreases k,
{
    if k > 0 {
        lemma_sparse_run_state(s, cells, (k - 1) as nat);
    }
}

/// A run of empty or single-entry neighbor reports, starting from a cleared
/// streak, is reported exactly once: on the
/// [`NEIGHBOR_STREAK_THRESHOLD`]-th report.
pub proof fn lemma_sparse_neighbors_fire_once(s: AnalyzerView, cells: nat, k: nat)
    requires
        s.neighbor_streak == 0,
        !s.neighbor_streak_flagged,
        cells <= 1,
        k < u32::MAX,
    ensures
        neighbor_run(s, cells, k).1 == if k >= NEIGHBOR_STREAK_THRESHOLD {
            1nat
        } else {
            0nat
        },
{
    lemma_sparse_run_state(s, cells, k);
}

/// An event is escalated to `Medium` exactly when both anomalies are
/// currently true once it is raised; on its own, a signal anomaly is `Low`
/// and a sparse neighbor list `Informational`.
pub proof fn lemma_escalation(s: AnalyzerView, ie: InformationElement)
    requires
        s.wf(),
        s.accepts(ie),
        s.step(ie).1 is Some,
    ensures
        ({
            let t = s.step(ie).0;
            let ev = s.step(ie).1->0;
            &&& ev.event_type == EventType::Medium <==> (t.signal_anomaly_active()
                && t.neighbor_streak_flagged)
            &&& ev.detail is StrongStableSignal ==> ev.event_type != EventType::Informational
            &&& ev.detail is SparseNeighbors ==> ev.event_type != EventType::Low
        }),
{
}

/// The state after feeding `ies` in order.
pub open spec fn run(s: AnalyzerView, ies: Seq<InformationElement>) -> AnalyzerView
    decreases ies.len(),
{
    if ies.len() == 0 {
        s
    } else {
        run(s, ies.drop_last()).step(ies.last()).0
    }
}

/// The event that `ies[i]` raises when `ies` is fed in order.
pub open spec fn event_at(s: AnalyzerView, ies: Seq<InformationElement>, i: int) -> Option<
    EventView,
> {
    run(s, ies.take(i)).step(ies[i]).1
}

/// A neighbor report listing more than one cell.
pub open spec fn is_normal_report(ie: InformationElement) -> bool {
    ie matches InformationElement::Ml1NeighborCells { neighbor_cells } && neighbor_cells > 1
}

/// A neighbor report listing at most one cell.
pub open spec fn is_sparse_report(ie: InformationElement) -> bool {
    ie matches InformationElement::Ml1NeighborCells { neighbor_cells } && neighbor_cells <= 1
}

/// A serving-cell measurement of the cell `pci`.
pub open spec fn is_serving_of(ie: InformationElement, pci: u16) -> bool {
    ie matches InformationElement::Ml1ServingCell { pci: p, .. } && p == pci
}

proof fn lemma_run_prefix(s: AnalyzerView, ies: Seq<InformationElement>, i: int)
    requires
        0 <= i < ies.len(),
    ensures
        event_at(s, ies, i) == event_at(s, ies.drop_last(), i) || i == ies.len() - 1,
        i < ies.len() - 1 ==> ies.take(i) == ies.drop_last().take(i) && ies[i] == ies.drop_last()[i],
        i == ies.len() - 1 ==> ies.take(i) == ies.drop_last() && ies[i] == ies.last(),
{
    assert(ies.take(i) =~= ies.drop_last().take(i) || i == ies.len() - 1);
    if i == ies.len() - 1 {
        assert(ies.take(i) =~= ies.drop_last());
    } else {
        assert(ies.take(i) =~= ies.drop_last().take(i));
    }
}

// ----- A decoded SIB1 never changes what the ML1 measurements raise -----

/// The state with the cell label left out.
pub open spec fn unlabeled(s: AnalyzerView) -> AnalyzerView {
    AnalyzerView { last_cell_identity: None, ..s }
}

/// An event's severity, if there is an event.
pub open spec fn severity(e: Option<EventView>) -> Option<EventType> {
    match e {
        Some(e) => Some(e.event_type),
        None => None,
    }
}

/// The elements of `ies` other than SIB1s, in order.
pub open spec fn ml1_items(ies: Seq<InformationElement>) -> Seq<InformationElement>
    decreases ies.len(),
{
    if ies.len() == 0 {
        Seq::empty()
    } else if ies.last() is Sib1 {
        ml1_items(ies.drop_last())
    } else {
        ml1_items(ies.drop_last()).push(ies.last())
    }
}

/// The severities of the events the non-SIB1 elements of `ies` raise (or
/// `None` where they raise none), in order.
pub open spec fn ml1_outcomes(s: AnalyzerView, ies: Seq<InformationElement>) -> Seq<Option<EventType>>
    decreases ies.len(),
{
    if ies.len() == 0 {
        Seq::empty()
    } else if ies.last() is Sib1 {
        ml1_outcomes(s, ies.drop_last())
    } else {
        ml1_outcomes(s, ies.drop_last()).push(
            severity(run(s, ies.drop_last()).step(ies.last()).1),
        )
    }
}

proof fn lemma_unlabeled_step(s1: AnalyzerView, s2: AnalyzerView, ie: InformationElement)
    requires
        unlabeled(s1) == unlabeled(s2),
    ensures
        unlabeled(s1.step(ie).0) == unlabeled(s2.step(ie).0),
        !(ie is Sib1) ==> severity(s1.step(ie).1) == severity(s2.step(ie).1),
{
    assert(s1.rsrp_window == s2.rsrp_window);
    assert(s1.serving_pci == s2.serving_pci);
}

proof fn lemma_run_without_sib1(s: AnalyzerView, ies: Seq<InformationElement>)
    ensures
        unlabeled(run(s, ies)) == unlabeled(run(s, ml1_items(ies))),
        ml1_outcomes(s, ies) == ml1_outcomes(s, ml1_items(ies)),
    decreases ies.len(),
{
    if ies.len() > 0 {
        let init = ies.drop_last();
        lemma_run_without_sib1(s, init);
        let m = ml1_items(init);
        if ies.last() is Sib1 {
            assert(unlabeled(run(s, ies)) == unlabeled(run(s, init)));
        } else {
            let mp = m.push(ies.last());
            assert(mp.drop_last() =~= m);
            assert(mp.last() == ies.last());
            assert(!(mp.last() is Sib1));
            lemma_unlabeled_step(run(s, init), run(s, m), ies.last());
            lemma_ml1_items_fixed(init);
        }
    }
}

proof fn lemma_ml1_items_fixed(ies: Seq<InformationElement>)
    ensures
        ml1_items(ml1_items(ies)) == ml1_items(ies),
        forall|i: int| 0 <= i < ml1_items(ies).len() ==> !(#[trigger] ml1_items(ies)[i] is Sib1),
    decreases ies.len(),
{
    if ies.len() > 0 {
        lemma_ml1_items_fixed(ies.drop_last());
        let m = ml1_items(ies.drop_last());
        if !(ies.last() is Sib1) {
            let mp = m.push(ies.last());
            assert(mp.drop_last() =~= m);
            assert forall|i: int| 0 <= i < mp.len() implies !(#[trigger] mp[i] is Sib1) by {
                if i < m.len() {
                    assert(mp[i] == m[i]);
                }
            }
        }
    }
}

/// Adding or removing decoded SIB1s anywhere in the stream changes none of
/// the ML1 outcomes: each measurement raises an event of the same severity,
/// or none, in both streams (only the cell label inside an event may differ),
/// and a SIB1 itself never raises one.
pub proof fn lemma_sib1_leaves_ml1_outcomes(
    s: AnalyzerView,
    ies1: Seq<InformationElement>,
    ies2: Seq<InformationElement>,
)
    requires
        ml1_items(ies1) == ml1_items(ies2),
    ensures
        ml1_outcomes(s, ies1) == ml1_outcomes(s, ies2),
        forall|i: int| 0 <= i < ies1.len() && #[trigger] ies1[i] is Sib1 ==> event_at(s, ies1, i) is None,
{
    lemma_run_without_sib1(s, ies1);
    lemma_run_without_sib1(s, ies2);
}

// ----- Run-level statements of the neighbor heuristic -----

/// The length of the run of sparse neighbor reports that ends `ies`: sparse
/// reports since the start or since the last report listing more than one
/// cell (other elements neither count nor break the run).
pub open spec fn sparse_run_length(ies: Seq<InformationElement>) -> nat
    decreases ies.len(),
{
    if ies.len() == 0 {
        0
    } else if is_normal_report(ies.last()) {
        0
    } else if is_sparse_report(ies.last()) {
        sparse_run_length(ies.drop_last()) + 1
    } else {
        sparse_run_length(ies.drop_last())
    }
}

proof fn lemma_sparse_run_length_bound(ies: Seq<InformationElement>)
    ensures
        sparse_run_length(ies) <= ies.len(),
    decreases ies.len(),
{
    if ies.len() > 0 {
        lemma_sparse_run_length_bound(ies.drop_last());
    }
}

proof fn lemma_neighbor_state(ies: Seq<InformationElement>)
    requires
        ies.len() < u32::MAX,
    ensures
        run(AnalyzerView::initial(), ies).neighbor_streak == sparse_run_length(ies),
        run(AnalyzerView::initial(), ies).neighbor_streak_flagged == (sparse_run_length(ies)
            >= NEIGHBOR_STREAK_THRESHOLD),
    decreases ies.len(),
{
    if ies.len() > 0 {
        lemma_neighbor_state(ies.drop_last());
        lemma_sparse_run_length_bound(ies.drop_last());
    }
}

/// Feeding a fresh analyzer `ies`, a neighbor report raises an event exactly
/// when it lists at most one cell and the run of sparse reports it ends has
/// just reached [`NEIGHBOR_STREAK_THRESHOLD`].
pub proof fn lemma_sparse_fires_at_threshold(ies: Seq<InformationElement>)
    requires
        ies.len() > 0,
        ies.len() < u32::MAX,
        ies.last() is Ml1NeighborCells,
    ensures
        run(AnalyzerView::initial(), ies.drop_last()).step(ies.last()).1 is Some <==> (
        is_sparse_report(ies.last()) && sparse_run_length(ies) == NEIGHBOR_STREAK_THRESHOLD),
{
    lemma_neighbor_state(ies.drop_last());
}

/// A neighbor event was raised in `ies` with no report listing more than one
/// cell after it.
pub open spec fn sparse_anomaly_standing(s: AnalyzerView, ies: Seq<InformationElement>) -> bool {
    exists|i: int|
        0 <= i < ies.len() && #[trigger] ies[i] is Ml1NeighborCells && event_at(s, ies, i) is Some
            && forall|j: int| i < j < ies.len() ==> !is_normal_report(#[trigger] ies[j])
}

/// From a state without a standing sparse-neighbor anomaly, the anomaly is
/// flagged exactly when a neighbor event has been raised and no report
/// listing more than one cell has come since.
#[verifier::spinoff_prover]
#[verifier::rlimit(40)]
pub proof fn lemma_sparse_flag_history(s: AnalyzerView, ies: Seq<InformationElement>)
    requires
        !s.neighbor_streak_flagged,
    ensures
        run(s, ies).neighbor_streak_flagged <==> sparse_anomaly_standing(s, ies),
    decreases ies.len(),
{
    if ies.len() > 0 {
        let init = ies.drop_last();
        let last = ies.len() - 1;
        lemma_sparse_flag_history(s, init);
        assert forall|i: int| 0 <= i < last implies #[trigger] event_at(s, ies, i) == event_at(
            s,
            init,
            i,
        ) && ies[i] == init[i] by {
            lemma_run_prefix(s, ies, i);
        }
        lemma_run_prefix(s, ies, last);
        if sparse_anomaly_standing(s, init) && !is_normal_report(ies.last()) {
            let i = choose|i: int|
                0 <= i < init.len() && #[trigger] init[i] is Ml1NeighborCells && event_at(s, init, i)
                    is Some && forall|j: int| i < j < init.len() ==> !is_normal_report(#[trigger] init[j]);
            assert(ies[i] is Ml1NeighborCells && event_at(s, ies, i) is Some);
            assert forall|j: int| i < j < ies.len() implies !is_normal_report(#[trigger] ies[j]) by {
                if j < last {
                    assert(init[j] == ies[j]);
                }
            }
        }
        if sparse_anomaly_standing(s, ies) {
            let i = choose|i: int|
                0 <= i < ies.len() && #[trigger] ies[i] is Ml1NeighborCells && event_at(s, ies, i)
                    is Some && forall|j: int| i < j < ies.len() ==> !is_normal_report(#[trigger] ies[j]);
            if i < last {
                assert(!is_normal_report(ies[last]));
                assert(init[i] is Ml1NeighborCells && event_at(s, init, i) is Some);
                assert forall|j: int| i < j < init.len() implies !is_normal_report(#[trigger] init[j]) by {
                    assert(init[j] == ies[j]);
                }
            }
        }
    }
}

/// The severity of a signal event raised after `ies`: `Medium` exactly when a
/// neighbor event has been raised with no report listing more than one cell
/// since, `Low` otherwise.
pub proof fn lemma_signal_escalation_history(ies: Seq<InformationElement>, pci: u16, rsrp: i32)
    requires
        run(AnalyzerView::initial(), ies).on_serving(pci, rsrp).1 is Some,
    ensures
        run(AnalyzerView::initial(), ies).on_serving(pci, rsrp).1->0.event_type == if sparse_anomaly_standing(
            AnalyzerView::initial(),
            ies,
        ) {
            EventType::Medium
        } else {
            EventType::Low
        },
{
    lemma_sparse_flag_history(AnalyzerView::initial(), ies);
}

// ----- Run-level statements of the signal heuristic -----

/// A signal event was raised in `ies` for the cell `pci`, with no
/// measurement of another serving cell after it.
pub open spec fn signal_anomaly_standing(s: AnalyzerView, ies: Seq<InformationElement>, pci: u16) -> bool {
    exists|i: int|
        0 <= i < ies.len() && is_serving_of(#[trigger] ies[i], pci) && event_at(s, ies, i) is Some
            && forall|j: int|
            i < j < ies.len() && #[trigger] ies[j] is Ml1ServingCell ==> is_serving_of(ies[j], pci)
}

/// Feeding a fresh analyzer, the signal anomaly is flagged for `pci` exactly
/// when a serving event was raised for `pci` and no other serving cell has
/// been measured since.
#[verifier::spinoff_prover]
pub proof fn lemma_signal_flag_history(ies: Seq<InformationElement>, pci: u16)
    ensures
        run(AnalyzerView::initial(), ies).signal_anomaly_flagged_for_pci == Some(pci)
            <==> signal_anomaly_standing(AnalyzerView::initial(), ies, pci),
        run(AnalyzerView::initial(), ies).signal_anomaly_flagged_for_pci matches Some(p) ==> run(
            AnalyzerView::initial(),
            ies,
        ).serving_pci == Some(p),
    decreases ies.len(),
{
    let s = AnalyzerView::initial();
    if ies.len() > 0 {
        let init = ies.drop_last();
        let last = ies.len() - 1;
        lemma_signal_flag_history(init, pci);
        assert forall|i: int| 0 <= i < last implies #[trigger] event_at(s, ies, i) == event_at(
            s,
            init,
            i,
        ) && ies[i] == init[i] by {
            lemma_run_prefix(s, ies, i);
        }
        lemma_run_prefix(s, ies, last);
        let before = run(s, init);
        if signal_anomaly_standing(s, init, pci) && !(ies.last() is Ml1ServingCell
            && !is_serving_of(ies.last(), pci)) {
            let i = choose|i: int|
                0 <= i < init.len() && is_serving_of(#[trigger] init[i], pci) && event_at(s, init, i)
                    is Some && forall|j: int|
                    i < j < init.len() && #[trigger] init[j] is Ml1ServingCell ==> is_serving_of(
                        init[j],
                        pci,
                    );
            assert(is_serving_of(ies[i], pci) && event_at(s, ies, i) is Some);
            assert forall|j: int| i < j < ies.len() && #[trigger] ies[j] is Ml1ServingCell implies
                is_serving_of(ies[j], pci) by {
                if j < last {
                    assert(init[j] == ies[j]);
                }
            }
        }
        if signal_anomaly_standing(s, ies, pci) {
            let i = choose|i: int|
                0 <= i < ies.len() && is_serving_of(#[trigger] ies[i], pci) && event_at(s, ies, i)
                    is Some && forall|j: int|
                    i < j < ies.len() && #[trigger] ies[j] is Ml1ServingCell ==> is_serving_of(
                        ies[j],
                        pci,
                    );
            if i < last {
                assert(ies[last] is Ml1ServingCell ==> is_serving_of(ies[last], pci));
                assert(is_serving_of(init[i], pci) && event_at(s, init, i) is Some);
                assert forall|j: int| i < j < init.len() && #[trigger] init[j] is Ml1ServingCell implies
                    is_serving_of(init[j], pci) by {
                    assert(init[j] == ies[j]);
                }
            }
        }
    }
}

/// The severity of a neighbor event raised after feeding a fresh analyzer
/// `ies`: `Medium` only when the signal anomaly is currently true, which
/// needs a serving event raised for the current serving cell with no other
/// serving cell measured since; `Informational` otherwise.
pub proof fn lemma_neighbor_escalation_history(ies: Seq<InformationElement>, cells: nat)
    requires
        ies.len() < u32::MAX,
        run(AnalyzerView::initial(), ies).on_neighbors(cells).1 is Some,
    ensures
        ({
            let before = run(AnalyzerView::initial(), ies);
            let ev = before.on_neighbors(cells).1->0;
            &&& ev.event_type == EventType::Medium <==> before.signal_anomaly_active()
            &&& ev.event_type != EventType::Medium ==> ev.event_type == EventType::Informational
            &&& ev.event_type == EventType::Medium ==> exists|pci: u16|
                before.serving_pci == Some(pci) && signal_anomaly_standing(
                    AnalyzerView::initial(),
                    ies,
                    pci,
                )
        }),
{
    let before = run(AnalyzerView::initial(), ies);
    lemma_run_keeps_wf(ies);
    if before.signal_anomaly_active() {
        let pci = before.signal_anomaly_flagged_for_pci->0;
        lemma_signal_flag_history(ies, pci);
    }
}

proof fn lemma_run_keeps_wf(ies: Seq<InformationElement>)
    requires
        ies.len() < u32::MAX,
    ensures
        run(AnalyzerView::initial(), ies).wf(),
    decreases ies.len(),
{
    if ies.len() > 0 {
        lemma_run_keeps_wf(ies.drop_last());
        lemma_neighbor_state(ies.drop_last());
        lemma_sparse_run_length_bound(ies.drop_last());
    }
}

// ----- The cell label -----

/// The identity a decoded SIB1 element describes.
pub open spec fn sib1_view(ie: InformationElement) -> CellIdentityView {
    match ie {
        InformationElement::Sib1 { plmns, tracking_area_code, cell_identity } => sib1_identity(
            plmns@.map_values(|p: String| p@),
            tracking_area_code@,
            cell_identity@,
        ),
        _ => arbitrary(),
    }
}

proof fn lemma_identity_is_latest_sib1(s: AnalyzerView, ies: Seq<InformationElement>)
    ensures
        (forall|i: int| 0 <= i < ies.len() ==> !(#[trigger] ies[i] is Sib1)) ==> run(
            s,
            ies,
        ).last_cell_identity == s.last_cell_identity,
        forall|i: int|
            0 <= i < ies.len() && #[trigger] ies[i] is Sib1 && (forall|j: int|
                i < j < ies.len() ==> !(#[trigger] ies[j] is Sib1)) ==> run(s, ies).last_cell_identity
                == Some(sib1_view(ies[i])),
    decreases ies.len(),
{
    if ies.len() > 0 {
        let init = ies.drop_last();
        let last = ies.len() - 1;
        lemma_identity_is_latest_sib1(s, init);
        assert forall|i: int| 0 <= i < init.len() implies #[trigger] init[i] == ies[i] by {}
        if forall|i: int| 0 <= i < ies.len() ==> !(#[trigger] ies[i] is Sib1) {
            assert forall|i: int| 0 <= i < init.len() implies !(#[trigger] init[i] is Sib1) by {
                assert(!(ies[i] is Sib1));
            }
        }
        assert forall|i: int|
            0 <= i < ies.len() && #[trigger] ies[i] is Sib1 && (forall|j: int|
                i < j < ies.len() ==> !(#[trigger] ies[j] is Sib1)) implies run(s, ies).last_cell_identity
                == Some(sib1_view(ies[i])) by {
            if i < last {
                assert(!(ies[last] is Sib1));
                assert forall|j: int| i < j < init.len() implies !(#[trigger] init[j] is Sib1) by {
                    assert(!(ies[j] is Sib1));
                }
                assert(init[i] is Sib1);
            }
        }
    }
}

/// A fresh analyzer fed `ies` labels its events with the identity from the
/// most recent SIB1 in `ies`, or as not yet seen when there is none.
pub proof fn lemma_label_is_latest_sib1(ies: Seq<InformationElement>)
    ensures
        (forall|i: int| 0 <= i < ies.len() ==> !(#[trigger] ies[i] is Sib1)) ==> run(
            AnalyzerView::initial(),
            ies,
        ).cell_label() == "cell identity not yet seen"@,
        forall|i: int|
            0 <= i < ies.len() && #[trigger] ies[i] is Sib1 && (forall|j: int|
                i < j < ies.len() ==> !(#[trigger] ies[j] is Sib1)) ==> run(
                AnalyzerView::initial(),
                ies,
            ).cell_label() == identity_text(sib1_view(ies[i])),
{
    lemma_identity_is_latest_sib1(AnalyzerView::initial(), ies);
}


// ----- The RSRP window and its statistics -----

/// The sum of two sample runs side by side is the sum of their sums, and a
/// single sample sums to itself.
pub proof fn lemma_sum_adds_up(a: Seq<i32>, b: Seq<i32>, x: i32)
    ensures
        seq_sum(a + b) == seq_sum(a) + seq_sum(b),
        seq_sum(seq![x]) == x,
    decreases b.len(),
{
    assert(seq![x].drop_last() =~= Seq::<i32>::empty());
    assert(seq_sum(Seq::<i32>::empty()) == 0);
    assert(seq![x].last() == x);
    if b.len() == 0 {
        assert(a + b =~= a);
    } else {
        lemma_sum_adds_up(a, b.drop_last(), x);
        assert((a + b).drop_last() =~= a + b.drop_last());
        assert((a + b).last() == b.last());
    }
}

/// The window's smallest and largest samples bound every sample in it, the
/// newest included, and each is one of its samples.
pub proof fn lemma_min_max_bound_window(w: Seq<i32>)
    requires
        w.len() >= 1,
    ensures
        forall|i: int| 0 <= i < w.len() ==> seq_min(w) <= #[trigger] w[i] <= seq_max(w),
        exists|i: int| 0 <= i < w.len() && w[i] == seq_min(w),
        exists|j: int| 0 <= j < w.len() && w[j] == seq_max(w),
    decreases w.len(),
{
    if w.len() == 1 {
        assert(w[0] == seq_min(w));
        assert(w[0] == seq_max(w));
    } else {
        let d = w.drop_last();
        lemma_min_max_bound_window(d);
        assert forall|i: int| 0 <= i < w.len() implies seq_min(w) <= #[trigger] w[i] <= seq_max(w) by {
            if i < d.len() {
                assert(w[i] == d[i]);
            }
        }
        let i0 = choose|i: int| 0 <= i < d.len() && d[i] == seq_min(d);
        let j0 = choose|j: int| 0 <= j < d.len() && d[j] == seq_max(d);
        assert(w[i0] == d[i0]);
        assert(w[j0] == d[j0]);
        if w.last() < seq_min(d) {
            assert(w[w.len() - 1] == seq_min(w));
        } else {
            assert(w[i0] == seq_min(w));
        }
        if w.last() > seq_max(d) {
            assert(w[w.len() - 1] == seq_max(w));
        } else {
            assert(w[j0] == seq_max(w));
        }
    }
}

/// Every two samples of `w` lie within [`STABLE_SPREAD`] of each other.
pub open spec fn within_spread(w: Seq<i32>) -> bool {
    forall|i: int, j: int| 0 <= i < w.len() && 0 <= j < w.len() ==> w[i] - w[j] <= STABLE_SPREAD
}

proof fn lemma_spread_is_pairwise(w: Seq<i32>)
    requires
        w.len() >= 1,
    ensures
        seq_max(w) - seq_min(w) <= STABLE_SPREAD <==> within_spread(w),
{
    lemma_min_max_bound_window(w);
    if within_spread(w) {
        let i = choose|i: int| 0 <= i < w.len() && w[i] == seq_max(w);
        let j = choose|j: int| 0 <= j < w.len() && w[j] == seq_min(w);
        assert(w[i] - w[j] <= STABLE_SPREAD);
    }
    if seq_max(w) - seq_min(w) <= STABLE_SPREAD {
        assert forall|i: int, j: int| 0 <= i < w.len() && 0 <= j < w.len() implies w[i] - w[j]
            <= STABLE_SPREAD by {
            assert(seq_min(w) <= w[i] <= seq_max(w));
            assert(seq_min(w) <= w[j] <= seq_max(w));
        }
    }
}

/// After a serving-cell measurement the window is the latest
/// `min(n, RSRP_WINDOW)` samples of the serving cell in arrival order: the
/// previous window (nothing, on a new cell) with the new sample appended,
/// and the oldest sample dropped when that exceeds [`RSRP_WINDOW`], whatever
/// the sample values.
pub proof fn lemma_window_keeps_latest_samples(s: AnalyzerView, pci: u16, rsrp: i32)
    requires
        s.wf(),
    ensures
        ({
            let full = if s.serving_pci == Some(pci) {
                s.rsrp_window.push(rsrp)
            } else {
                seq![rsrp]
            };
            let keep: int = if full.len() > RSRP_WINDOW {
                RSRP_WINDOW as int
            } else {
                full.len() as int
            };
            &&& s.on_serving(pci, rsrp).0.rsrp_window == full.subrange(full.len() - keep, full.len() as int)
            &&& s.on_serving(pci, rsrp).0.serving_pci == Some(pci)
        }),
{
    let full = if s.serving_pci == Some(pci) {
        s.rsrp_window.push(rsrp)
    } else {
        seq![rsrp]
    };
    assert(Seq::<i32>::empty().push(rsrp) =~= seq![rsrp]);
    if full.len() > RSRP_WINDOW {
        assert(full.drop_first() =~= full.subrange(full.len() - RSRP_WINDOW, full.len() as int));
    } else {
        assert(full =~= full.subrange(0, full.len() as int));
    }
}

/// The last `min(k, RSRP_WINDOW)` elements of `samples`.
pub open spec fn latest(samples: Seq<i32>) -> Seq<i32> {
    if samples.len() > RSRP_WINDOW {
        samples.subrange(samples.len() - RSRP_WINDOW, samples.len() as int)
    } else {
        samples
    }
}

/// Measurements of a newly serving cell: the window holds the latest
/// `min(k, RSRP_WINDOW)` of its samples, in arrival order.
pub proof fn lemma_window_is_latest_run(s: AnalyzerView, pci: u16, samples: Seq<i32>)
    requires
        s.wf(),
        s.serving_pci != Some(pci),
        samples.len() >= 1,
    ensures
        serving_run(s, pci, samples).0.rsrp_window == latest(samples),
        serving_run(s, pci, samples).0.serving_pci == Some(pci),
        serving_run(s, pci, samples).0.wf(),
    decreases samples.len(),
{
    let d = samples.drop_last();
    let x = samples.last();
    if samples.len() == 1 {
        assert(d =~= Seq::<i32>::empty());
        lemma_window_keeps_latest_samples(s, pci, x);
        assert(seq![x] =~= samples);
        assert(seq![x].subrange(0, 1) =~= seq![x]);
    } else {
        lemma_window_is_latest_run(s, pci, d);
        let before = serving_run(s, pci, d).0;
        lemma_window_keeps_latest_samples(before, pci, x);
        let full = latest(d).push(x);
        if d.len() > RSRP_WINDOW {
            assert(full.subrange(1, full.len() as int) =~= latest(samples));
        } else if full.len() > RSRP_WINDOW {
            assert(full =~= samples);
            assert(full.subrange(full.len() - RSRP_WINDOW, full.len() as int) =~= latest(samples));
        } else {
            assert(full =~= samples);
            assert(full.subrange(0, full.len() as int) =~= full);
        }
    }
}

/// A serving-cell measurement raises an event exactly when the resulting
/// window holds at least [`MIN_RSRP_SAMPLES`] samples, the anomaly is not
/// already flagged for that cell, the window's mean is above
/// [`STRONG_RSRP`], and every two of its samples lie within
/// [`STABLE_SPREAD`] of each other.
pub proof fn lemma_signal_fires_exactly_when(s: AnalyzerView, pci: u16, rsrp: i32)
    requires
        s.wf(),
    ensures
        ({
            let w = s.on_serving(pci, rsrp).0.rsrp_window;
            let already = s.serving_pci == Some(pci) && s.signal_anomaly_flagged_for_pci == Some(pci);
            s.on_serving(pci, rsrp).1 is Some <==> (w.len() >= MIN_RSRP_SAMPLES && !already
                && seq_sum(w) > STRONG_RSRP * w.len() && within_spread(w))
        }),
{
    lemma_window_keeps_latest_samples(s, pci, rsrp);
    let w = s.on_serving(pci, rsrp).0.rsrp_window;
    if w.len() >= 1 {
        lemma_spread_is_pairwise(w);
    }
}

/// The signal anomaly is currently true exactly when the window holds at
/// least [`MIN_RSRP_SAMPLES`] samples, its mean is above [`STRONG_RSRP`], and
/// every two of its samples lie within [`STABLE_SPREAD`] of each other.
pub proof fn lemma_signal_active_exactly_when(s: AnalyzerView)
    ensures
        s.signal_anomaly_active() <==> (s.rsrp_window.len() >= MIN_RSRP_SAMPLES && seq_sum(
            s.rsrp_window,
        ) > STRONG_RSRP * s.rsrp_window.len() && within_spread(s.rsrp_window)),
{
    if s.rsrp_window.len() >= 1 {
        lemma_spread_is_pairwise(s.rsrp_window);
    }
}

/// A neighbor-cell report touches only the neighbor heuristic: the serving
/// cell, its RSRP window, the signal flag and the cell label are unchanged.
pub proof fn lemma_neighbor_report_leaves_signal_state(s: AnalyzerView, ie: InformationElement)
    requires
        ie is Ml1NeighborCells,
    ensures
        s.step(ie).0.serving_pci == s.serving_pci,
        s.step(ie).0.rsrp_window == s.rsrp_window,
        s.step(ie).0.signal_anomaly_flagged_for_pci == s.signal_anomaly_flagged_for_pci,
        s.step(ie).0.last_cell_identity == s.last_cell_identity,
{
}

// ----- Neighbor reports never change what the serving measurements raise -----

/// The state with the neighbor heuristic's part left out.
pub open spec fn without_neighbor_state(s: AnalyzerView) -> AnalyzerView {
    AnalyzerView { neighbor_streak: 0, neighbor_streak_flagged: false, ..s }
}

/// What an event reports, if there is an event.
pub open spec fn reported(e: Option<EventView>) -> Option<EventDetailView> {
    match e {
        Some(e) => Some(e.detail),
        None => None,
    }
}

/// The elements of `ies` other than neighbor reports, in order.
pub open spec fn non_neighbor_items(ies: Seq<InformationElement>) -> Seq<InformationElement>
    decreases ies.len(),
{
    if ies.len() == 0 {
        Seq::empty()
    } else if ies.last() is Ml1NeighborCells {
        non_neighbor_items(ies.drop_last())
    } else {
        non_neighbor_items(ies.drop_last()).push(ies.last())
    }
}

/// What the elements of `ies` other than neighbor reports report (or `None`
/// where they raise no event), in order.
pub open spec fn non_neighbor_outcomes(s: AnalyzerView, ies: Seq<InformationElement>) -> Seq<
    Option<EventDetailView>,
>
    decreases ies.len(),
{
    if ies.len() == 0 {
        Seq::empty()
    } else if ies.last() is Ml1NeighborCells {
        non_neighbor_outcomes(s, ies.drop_last())
    } else {
        non_neighbor_outcomes(s, ies.drop_last()).push(
            reported(run(s, ies.drop_last()).step(ies.last()).1),
        )
    }
}

proof fn lemma_step_ignores_neighbor_state(s1: AnalyzerView, s2: AnalyzerView, ie: InformationElement)
    requires
        without_neighbor_state(s1) == without_neighbor_state(s2),
    ensures
        without_neighbor_state(s1.step(ie).0) == without_neighbor_state(s2.step(ie).0),
        !(ie is Ml1NeighborCells) ==> reported(s1.step(ie).1) == reported(s2.step(ie).1),
{
    assert(s1.rsrp_window == s2.rsrp_window);
    assert(s1.serving_pci == s2.serving_pci);
    assert(s1.last_cell_identity == s2.last_cell_identity);
    if ie is Ml1NeighborCells {
        lemma_neighbor_report_leaves_signal_state(s1, ie);
        lemma_neighbor_report_leaves_signal_state(s2, ie);
    }
}

proof fn lemma_non_neighbor_items_fixed(ies: Seq<InformationElement>)
    ensures
        non_neighbor_items(non_neighbor_items(ies)) == non_neighbor_items(ies),
    decreases ies.len(),
{
    if ies.len() > 0 {
        lemma_non_neighbor_items_fixed(ies.drop_last());
        let m = non_neighbor_items(ies.drop_last());
        if !(ies.last() is Ml1NeighborCells) {
            let mp = m.push(ies.last());
            assert(mp.drop_last() =~= m);
        }
    }
}

proof fn lemma_run_without_neighbor_reports(s: AnalyzerView, ies: Seq<InformationElement>)
    ensures
        without_neighbor_state(run(s, ies)) == without_neighbor_state(
            run(s, non_neighbor_items(ies)),
        ),
        non_neighbor_outcomes(s, ies) == non_neighbor_outcomes(s, non_neighbor_items(ies)),
    decreases ies.len(),
{
    if ies.len() > 0 {
        let init = ies.drop_last();
        lemma_run_without_neighbor_reports(s, init);
        let m = non_neighbor_items(init);
        if ies.last() is Ml1NeighborCells {
            lemma_neighbor_report_leaves_signal_state(run(s, init), ies.last());
            assert(without_neighbor_state(run(s, ies)) == without_neighbor_state(run(s, init)));
        } else {
            let mp = m.push(ies.last());
            assert(mp.drop_last() =~= m);
            assert(mp.last() == ies.last());
            lemma_step_ignores_neighbor_state(run(s, init), run(s, m), ies.last());
            lemma_non_neighbor_items_fixed(init);
        }
    }
}

/// Adding or removing neighbor-cell reports anywhere in the stream changes
/// nothing that the other elements report: each serving measurement raises
/// an event with the same details, or none, in both streams (only an event's
/// severity may differ).
pub proof fn lemma_neighbor_reports_leave_signal_outcomes(
    s: AnalyzerView,
    ies1: Seq<InformationElement>,
    ies2: Seq<InformationElement>,
)
    requires
        non_neighbor_items(ies1) == non_neighbor_items(ies2),
    ensures
        non_neighbor_outcomes(s, ies1) == non_neighbor_outcomes(s, ies2),
        without_neighbor_state(run(s, ies1)) == without_neighbor_state(run(s, ies2)),
{
    lemma_run_without_neighbor_reports(s, ies1);
    lemma_run_without_neighbor_reports(s, ies2);
}

// ----- The PLMN list in the label -----

proof fn lemma_split_append(x: Seq<char>, y: Seq<char>, sep: char)
    requires
        forall|j: int| 0 <= j < y.len() ==> y[j] != sep,
    ensures
        split_on(x + y, sep) == split_on(x, sep).update(
            split_on(x, sep).len() - 1,
            split_on(x, sep).last() + y,
        ),
    decreases y.len(),
{
    lemma_split_on_nonempty(x, sep);
    let r = split_on(x, sep);
    if y.len() == 0 {
        assert(x + y =~= x);
        assert(r.last() + y =~= r.last());
        assert(r.update(r.len() - 1, r.last() + y) =~= r);
    } else {
        let yd = y.drop_last();
        lemma_split_append(x, yd, sep);
        assert((x + y).drop_last() =~= x + yd);
        assert((x + y).last() == y.last());
        assert(y.last() == y[y.len() - 1]);
        assert((r.last() + yd).push(y.last()) =~= r.last() + y);
        assert(split_on(x + y, sep) =~= r.update(r.len() - 1, r.last() + y));
    }
}

/// Parts that don't contain `sep`, joined with `sep`, split at `sep` back
/// into the same parts: one separator between every two consecutive parts.
pub proof fn lemma_join_splits_back(parts: Seq<Seq<char>>, sep: char)
    requires
        parts.len() >= 1,
        forall|i: int, j: int| 0 <= i < parts.len() && 0 <= j < parts[i].len() ==> #[trigger] parts[i][j] != sep,
    ensures
        split_on(join(parts, seq![sep]), sep) == parts,
    decreases parts.len(),
{
    let e = Seq::<char>::empty();
    if parts.len() == 1 {
        assert forall|j: int| 0 <= j < parts[0].len() implies parts[0][j] != sep by {
            assert(parts[0][j] != sep);
        }
        lemma_split_append(e, parts[0], sep);
        assert(e + parts[0] =~= parts[0]);
        assert(split_on(e, sep) == seq![e]);
        assert(seq![e].update(0, e + parts[0]) =~= parts);
    } else {
        let d = parts.drop_last();
        let last = parts.last();
        assert forall|i: int, j: int| 0 <= i < d.len() && 0 <= j < d[i].len() implies #[trigger] d[i][j] != sep by {
            assert(d[i] == parts[i]);
            assert(parts[i][j] != sep);
        }
        lemma_join_splits_back(d, sep);
        let jd = join(d, seq![sep]);
        let js = jd.push(sep);
        assert(js.drop_last() =~= jd);
        assert(split_on(js, sep) == d.push(e));
        assert forall|j: int| 0 <= j < last.len() implies last[j] != sep by {
            assert(parts[parts.len() - 1][j] != sep);
        }
        lemma_split_append(js, last, sep);
        assert(jd + seq![sep] =~= js);
        assert(e + last =~= last);
        assert(d.push(e).update(d.len() as int, e + last) =~= parts);
    }
}

/// The label of a cell lists its PLMNs, which contain no `/`, with exactly
/// one `/` between every two consecutive ones: the text between `PLMN ` and
/// ` TAC ...` splits at `/` into the PLMN list.
pub proof fn lemma_label_lists_plmns(c: CellIdentityView)
    requires
        c.plmns.len() >= 1,
        forall|i: int, j: int| 0 <= i < c.plmns.len() && 0 <= j < c.plmns[i].len() ==> #[trigger] c.plmns[i][j] != '/',
    ensures
        ({
            let t = identity_text(c);
            let tail = " TAC "@ + decimal(c.tac as nat) + " ECI "@ + decimal(c.eci as nat);
            &&& t.len() >= 5 + tail.len()
            &&& t.subrange(0, 5) == "PLMN "@
            &&& t.subrange(t.len() - tail.len(), t.len() as int) == tail
            &&& split_on(t.subrange(5, t.len() - tail.len()), '/') == c.plmns
        }),
{
    reveal_strlit("PLMN ");
    reveal_strlit("/");
    assert("/"@ =~= seq!['/']);
    lemma_join_splits_back(c.plmns, '/');
    let t = identity_text(c);
    let jn = join(c.plmns, "/"@);
    let tail = " TAC "@ + decimal(c.tac as nat) + " ECI "@ + decimal(c.eci as nat);
    assert(t =~= "PLMN "@ + jn + tail);
    assert(t.subrange(0, 5) =~= "PLMN "@);
    assert(t.subrange(t.len() - tail.len(), t.len() as int) =~= tail);
    assert(t.subrange(5, t.len() - tail.len()) =~= jn);
}


// ----- SIB1 bit strings -----

/// Bit strings are read big-endian: bits appended after `a` shift its value
/// left by their count and add their own value; a lone set bit is worth one.
#[verifier::spinoff_prover]
pub proof fn lemma_bits_value_big_endian(a: Seq<bool>, b: Seq<bool>)
    ensures
        bits_value(a + b) == bits_value(a) * two_to(b.len()) + bits_value(b),
        bits_value(seq![true]) == 1,
        bits_value(seq![false]) == 0,
    decreases b.len(),
{
    assert(seq![true].drop_last() =~= Seq::<bool>::empty());
    assert(seq![false].drop_last() =~= Seq::<bool>::empty());
    assert(bits_value(Seq::<bool>::empty()) == 0);
    assert(seq![true].last());
    assert(!seq![false].last());
    if b.len() == 0 {
        assert(a + b =~= a);
        assert(two_to(0) == 1);
        assert(bits_value(a) * 1 == bits_value(a));
    } else {
        let bd = b.drop_last();
        lemma_bits_value_big_endian(a, bd);
        let bit: nat = if b.last() {
            1nat
        } else {
            0nat
        };
        assert((a + b).drop_last() =~= a + bd);
        assert((a + b).last() == b.last());
        let x = bits_value(a);
        let y = two_to(bd.len());
        let z = bits_value(bd);
        assert(bits_value(a + bd) == x * y + z);
        assert(bits_value(a + b) == bits_value(a + bd) * 2 + bit);
        assert(two_to(b.len()) == 2 * y);
        assert(bits_value(b) == z * 2 + bit);
        assert((x * y + z) * 2 + bit == x * (2 * y) + (z * 2 + bit)) by (nonlinear_arith);
    }
}

} // verus!
