//! Looks for signs of a *passive* cell-site simulator: one that doesn't
//! force a 2G downgrade or disable encryption, and instead just sits there
//! collecting identifiers.
//!
//! This heuristic combines two weak, individually-unreliable signals from
//! the modem's raw LTE ML1 radio measurements:
//!
//! - An unusually strong *and* suspiciously stable serving-cell signal. A
//!   real macro cell's signal varies with multipath and movement; a rogue
//!   device sitting close to the target usually doesn't.
//! - A persistently empty or single-entry neighbor-cell list. A real tower
//!   in populated areas almost always reports several neighbors.
//!
//! Either one alone is common in ordinary circumstances (very close to a
//! legitimate tower, or genuinely rural/low-density coverage), so each is
//! reported at low severity on its own and escalated only when both are
//! currently true for the same serving cell.
//!
//! ML1 measurements identify a cell only by PCI (Physical Cell ID), which is
//! locally unique, not globally unique. The global identity (used here only
//! to label events, not to key the heuristics) comes from SIB1 broadcasts.
//! The most recently decoded SIB1 is assumed to belong to whichever cell ML1
//! currently calls "serving" -- true the vast majority of the time, but
//! briefly wrong during a handover. That only affects the cell label in the
//! event, not whether the heuristic fires.
//!
//! RSRP values are in sixteenths of a dBm, the resolution the modem reports
//! them in, so all of the arithmetic below is exact.

use std::collections::VecDeque;
use vstd::prelude::*;

use crate::text::{append_decimal, decimal};

verus! {

/// Consecutive serving-cell RSRP samples kept for the stability check.
pub const RSRP_WINDOW: usize = 12;

/// Minimum samples in the window before judging stability at all.
pub const MIN_RSRP_SAMPLES: usize = 8;

/// Mean RSRP (sixteenths of a dBm; -65 dBm) above which a signal counts as
/// "unusually strong" for a macro cell.
pub const STRONG_RSRP: i32 = -1040;

/// Max spread across the window (sixteenths of a dB; 3 dB) to call the signal
/// "suspiciously stable" -- ordinary multipath/movement produces more variance
/// than this.
pub const STABLE_SPREAD: i32 = 48;

/// Consecutive neighbor-cell reports with at most one neighbor before flagging.
pub const NEIGHBOR_STREAK_THRESHOLD: u32 = 10;

/// Severity of an event.
#[derive(Debug, Clone, Copy, PartialEq, Eq, Structural)]
pub enum EventType {
    Informational,
    Low,
    Medium,
}


/// A cell's identity as broadcast in its SIB1.
#[derive(Debug, Clone)]
pub struct CellIdentitySummary {
    /// PLMN identities, each formatted `"MCC-MNC"`.
    pub plmns: Vec<String>,
    /// Tracking area code.
    pub tac: u16,
    /// E-UTRAN cell identity.
    pub eci: u32,
}

/// The abstract content of a [`CellIdentitySummary`].
pub struct CellIdentityView {
    pub plmns: Seq<Seq<char>>,
    pub tac: u16,
    pub eci: u32,
}

impl View for CellIdentitySummary {
    type V = CellIdentityView;

    open spec fn view(&self) -> CellIdentityView {
        CellIdentityView {
            plmns: self.plmns@.map_values(|p: String| p@),
            tac: self.tac,
            eci: self.eci,
        }
    }
}

/// `parts` joined with `sep` between consecutive parts, as `[String]::join`.
pub open spec fn join(parts: Seq<Seq<char>>, sep: Seq<char>) -> Seq<char>
    decreases parts.len(),
{
    if parts.len() == 0 {
        Seq::empty()
    } else if parts.len() == 1 {
        parts[0]
    } else {
        join(parts.drop_last(), sep) + sep + parts.last()
    }
}

/// `PLMN <plmns joined by "/"> TAC <tac> ECI <eci>`.
pub open spec fn identity_text(c: CellIdentityView) -> Seq<char> {
    "PLMN "@ + join(c.plmns, "/"@) + " TAC "@ + decimal(c.tac as nat) + " ECI "@ + decimal(
        c.eci as nat,
    )
}

/// The label of the serving cell in events.
pub open spec fn label_text(c: Option<CellIdentityView>) -> Seq<char> {
    match c {
        Some(c) => identity_text(c),
        None => "cell identity not yet seen"@,
    }
}

/// The value of a bit string read big-endian: the first bit is the most
/// significant.
pub open spec fn bits_value(bits: Seq<bool>) -> nat
    decreases bits.len(),
{
    if bits.len() == 0 {
        0
    } else {
        bits_value(bits.drop_last()) * 2 + if bits.last() {
            1nat
        } else {
            0nat
        }
    }
}

/// Two to the power `n`.
pub open spec fn two_to(n: nat) -> nat
    decreases n,
{
    if n == 0 {
        1
    } else {
        2 * two_to((n - 1) as nat)
    }
}

/// A bit string of length `n` has a value below `2^n`.
pub proof fn lemma_bits_value_bound(bits: Seq<bool>)
    ensures
        bits_value(bits) < two_to(bits.len()),
    decreases bits.len(),
{
    if bits.len() > 0 {
        lemma_bits_value_bound(bits.drop_last());
    }
}

pub proof fn lemma_two_to_monotonic(a: nat, b: nat)
    requires
        a <= b,
    ensures
        two_to(a) <= two_to(b),
    decreases b,
{
    if a < b {
        lemma_two_to_monotonic(a, (b - 1) as nat);
    }
}

/// bitvec's `BitField::load_be` on a `BitVec<u8, Msb0>` holding `bits`. Its
/// documentation and source read the bits as one big-endian number, the first
/// bit the most significant; it panics on an empty field or one wider than
/// the integer, which `requires` leaves out.
#[verifier::external_body]
fn load_be_u32(bits: &[bool]) -> (v: u32)
    requires
        1 <= bits@.len() <= 32,
    ensures
        v == bits_value(bits@),
{
    let field: bitvec::vec::BitVec<u8, bitvec::order::Msb0> = bits.iter().copied().collect();
    bitvec::field::BitField::load_be::<u32>(&field)
}

/// The identity a decoded SIB1 describes.
pub open spec fn sib1_identity(
    plmns: Seq<Seq<char>>,
    tracking_area_code: Seq<bool>,
    cell_identity: Seq<bool>,
) -> CellIdentityView {
    CellIdentityView {
        plmns,
        tac: bits_value(tracking_area_code) as u16,
        eci: bits_value(cell_identity) as u32,
    }
}

impl CellIdentitySummary {
    /// The identity as text: `PLMN <plmns joined by "/"> TAC <tac> ECI <eci>`.
    pub fn to_string(&self) -> (r: String)
        ensures
            r@ == identity_text(self@),
    {
        let ghost parts = self.plmns@.map_values(|p: String| p@);
        let mut s = String::new();
        s.append("PLMN ");
        let n = self.plmns.len();
        let mut i: usize = 0;
        assert(parts.take(0) =~= Seq::<Seq<char>>::empty());
        while i < n
            invariant
                i <= n == self.plmns@.len(),
                parts == self.plmns@.map_values(|p: String| p@),
                s@ == "PLMN "@ + join(parts.take(i as int), "/"@),
            decreases n - i,
        {
            let ghost before = s@;
            let ghost next = parts.take(i + 1);
            if i > 0 {
                s.append("/");
            }
            s.append(self.plmns[i].as_str());
            proof {
                assert(next.drop_last() =~= parts.take(i as int));
                assert(next.last() == self.plmns@[i as int]@);
                if i == 0 {
                    assert(join(parts.take(0), "/"@) =~= Seq::<char>::empty());
                    assert(join(next, "/"@) == next[0]);
                    assert(s@ =~= "PLMN "@ + join(next, "/"@));
                } else {
                    assert(s@ =~= "PLMN "@ + join(next, "/"@));
                }
            }
            i = i + 1;
        }
        assert(parts.take(n as int) =~= parts);
        s.append(" TAC ");
        append_decimal(&mut s, self.tac as u64);
        s.append(" ECI ");
        append_decimal(&mut s, self.eci as u64);
        assert(s@ =~= identity_text(self@));
        s
    }
}

/// What the analyzer reads from the modem's diagnostic stream.
pub enum InformationElement {
    /// A decoded SIB1: its PLMN identities (each `"MCC-MNC"`), and its tracking
    /// area code and cell identity as the broadcast bit strings.
    Sib1 { plmns: Vec<String>, tracking_area_code: Vec<bool>, cell_identity: Vec<bool> },
    /// An ML1 serving-cell measurement: the cell's PCI and its RSRP, in
    /// sixteenths of a dBm.
    Ml1ServingCell { pci: u16, rsrp: i32 },
    /// An ML1 neighbor-cell report, by the number of cells it lists.
    Ml1NeighborCells { neighbor_cells: usize },
    /// Anything else.
    Other,
}

/// What an event reports.
#[derive(Debug, Clone)]
pub enum EventDetail {
    /// The serving cell's signal is unusually strong and suspiciously stable.
    /// `rsrp_sum` and `spread` are in sixteenths of a dB: the window's mean RSRP
    /// is `rsrp_sum / (16 * samples)` dBm.
    StrongStableSignal { pci: u16, cell: String, rsrp_sum: i64, samples: usize, spread: i64 },
    /// The neighbor-cell list has stayed empty or single-entry.
    SparseNeighbors { cell: String, neighbor_cells: usize, streak: u32 },
}

pub enum EventDetailView {
    StrongStableSignal { pci: u16, cell: Seq<char>, rsrp_sum: int, samples: nat, spread: int },
    SparseNeighbors { cell: Seq<char>, neighbor_cells: nat, streak: nat },
}

impl View for EventDetail {
    type V = EventDetailView;

    open spec fn view(&self) -> EventDetailView {
        match self {
            EventDetail::StrongStableSignal { pci, cell, rsrp_sum, samples, spread } => {
                EventDetailView::StrongStableSignal {
                    pci: *pci,
                    cell: cell@,
                    rsrp_sum: *rsrp_sum as int,
                    samples: *samples as nat,
                    spread: *spread as int,
                }
            },
            EventDetail::SparseNeighbors { cell, neighbor_cells, streak } => {
                EventDetailView::SparseNeighbors {
                    cell: cell@,
                    neighbor_cells: *neighbor_cells as nat,
                    streak: *streak as nat,
                }
            },
        }
    }
}

/// A finding of the analyzer.
#[derive(Debug, Clone)]
pub struct Event {
    pub event_type: EventType,
    pub detail: EventDetail,
}

pub struct EventView {
    pub event_type: EventType,
    pub detail: EventDetailView,
}

impl View for Event {
    type V = EventView;

    open spec fn view(&self) -> EventView {
        EventView { event_type: self.event_type, detail: self.detail@ }
    }
}

pub open spec fn event_view(e: Option<Event>) -> Option<EventView> {
    match e {
        Some(e) => Some(e@),
        None => None,
    }
}

/// Sum of the samples.
pub open spec fn seq_sum(w: Seq<i32>) -> int
    decreases w.len(),
{
    if w.len() == 0 {
        0
    } else {
        seq_sum(w.drop_last()) + w.last()
    }
}

/// Smallest sample (of a nonempty sequence).
pub open spec fn seq_min(w: Seq<i32>) -> int
    decreases w.len(),
{
    if w.len() <= 1 {
        w[0] as int
    } else if w.last() < seq_min(w.drop_last()) {
        w.last() as int
    } else {
        seq_min(w.drop_last())
    }
}

/// Largest sample (of a nonempty sequence).
pub open spec fn seq_max(w: Seq<i32>) -> int
    decreases w.len(),
{
    if w.len() <= 1 {
        w[0] as int
    } else if w.last() > seq_max(w.drop_last()) {
        w.last() as int
    } else {
        seq_max(w.drop_last())
    }
}

/// Mean above [`STRONG_RSRP`] and spread at most [`STABLE_SPREAD`].
pub open spec fn strong_and_stable(w: Seq<i32>) -> bool {
    seq_sum(w) > STRONG_RSRP * w.len() && seq_max(w) - seq_min(w) <= STABLE_SPREAD
}

/// The abstract state of a [`CellTowerAnomalyAnalyzer`].
pub struct AnalyzerView {
    pub last_cell_identity: Option<CellIdentityView>,
    pub serving_pci: Option<u16>,
    pub rsrp_window: Seq<i32>,
    pub signal_anomaly_flagged_for_pci: Option<u16>,
    pub neighbor_streak: u32,
    pub neighbor_streak_flagged: bool,
}

impl AnalyzerView {
    /// The state of a fresh analyzer.
    pub open spec fn initial() -> AnalyzerView {
        AnalyzerView {
            last_cell_identity: None,
            serving_pci: None,
            rsrp_window: Seq::empty(),
            signal_anomaly_flagged_for_pci: None,
            neighbor_streak: 0,
            neighbor_streak_flagged: false,
        }
    }

    /// What every reachable state satisfies.
    pub open spec fn wf(self) -> bool {
        &&& self.rsrp_window.len() <= RSRP_WINDOW
        &&& self.serving_pci is None ==> self.rsrp_window.len() == 0
        &&& self.signal_anomaly_flagged_for_pci matches Some(p) ==> self.serving_pci == Some(p)
            && self.rsrp_window.len() >= MIN_RSRP_SAMPLES
        &&& self.neighbor_streak_flagged ==> self.neighbor_streak >= NEIGHBOR_STREAK_THRESHOLD
        &&& self.signal_anomaly_active() ==> self.signal_anomaly_flagged_for_pci is Some
    }

    pub open spec fn cell_label(self) -> Seq<char> {
        label_text(self.last_cell_identity)
    }

    /// The signal anomaly is currently true: the serving cell's window holds
    /// at least [`MIN_RSRP_SAMPLES`] samples and is strong and stable.
    pub open spec fn signal_anomaly_active(self) -> bool {
        self.rsrp_window.len() >= MIN_RSRP_SAMPLES && strong_and_stable(self.rsrp_window)
    }

    /// The RSRP window after a serving-cell sample: restarted on a new PCI,
    /// and holding at most [`RSRP_WINDOW`] of the latest samples.
    pub open spec fn window_after(self, pci: u16, rsrp: i32) -> Seq<i32> {
        let base = if self.serving_pci == Some(pci) {
            self.rsrp_window
        } else {
            Seq::empty()
        };
        let w = base.push(rsrp);
        if w.len() > RSRP_WINDOW {
            w.drop_first()
        } else {
            w
        }
    }

    /// A serving-cell measurement: the next state and the event, if any.
    pub open spec fn on_serving(self, pci: u16, rsrp: i32) -> (AnalyzerView, Option<EventView>) {
        let flagged = if self.serving_pci == Some(pci) {
            self.signal_anomaly_flagged_for_pci
        } else {
            None
        };
        let w = self.window_after(pci, rsrp);
        let next = AnalyzerView {
            last_cell_identity: self.last_cell_identity,
            serving_pci: Some(pci),
            rsrp_window: w,
            signal_anomaly_flagged_for_pci: flagged,
            neighbor_streak: self.neighbor_streak,
            neighbor_streak_flagged: self.neighbor_streak_flagged,
        };
        if w.len() < MIN_RSRP_SAMPLES || flagged == Some(pci) || !strong_and_stable(w) {
            (next, None)
        } else {
            (
                AnalyzerView { signal_anomaly_flagged_for_pci: Some(pci), ..next },
                Some(
                    EventView {
                        event_type: if self.neighbor_streak_flagged {
                            EventType::Medium
                        } else {
                            EventType::Low
                        },
                        detail: EventDetailView::StrongStableSignal {
                            pci,
                            cell: self.cell_label(),
                            rsrp_sum: seq_sum(w),
                            samples: w.len(),
                            spread: seq_max(w) - seq_min(w),
                        },
                    },
                ),
            )
        }
    }

    /// A neighbor-cell report listing `neighbor_cells` cells.
    pub open spec fn on_neighbors(self, neighbor_cells: nat) -> (AnalyzerView, Option<EventView>) {
        if neighbor_cells > 1 {
            (AnalyzerView { neighbor_streak: 0, neighbor_streak_flagged: false, ..self }, None)
        } else {
            let streak = (self.neighbor_streak + 1) as u32;
            if streak != NEIGHBOR_STREAK_THRESHOLD || self.neighbor_streak_flagged {
                (AnalyzerView { neighbor_streak: streak, ..self }, None)
            } else {
                (
                    AnalyzerView { neighbor_streak: streak, neighbor_streak_flagged: true, ..self },
                    Some(
                        EventView {
                            event_type: if self.signal_anomaly_active() {
                                EventType::Medium
                            } else {
                                EventType::Informational
                            },
                            detail: EventDetailView::SparseNeighbors {
                                cell: self.cell_label(),
                                neighbor_cells,
                                streak: streak as nat,
                            },
                        },
                    ),
                )
            }
        }
    }

    /// Whether the analyzer handles `ie` without overflow or panic: SIB1 bit
    /// strings fit their integers, and a run of sparse neighbor reports has
    /// not reached `u32::MAX`.
    pub open spec fn accepts(self, ie: InformationElement) -> bool {
        match ie {
            InformationElement::Sib1 { tracking_area_code, cell_identity, .. } => {
                &&& 1 <= tracking_area_code@.len() <= 16
                &&& 1 <= cell_identity@.len() <= 32
            },
            InformationElement::Ml1NeighborCells { neighbor_cells } => {
                neighbor_cells > 1 || self.neighbor_streak < u32::MAX
            },
            _ => true,
        }
    }

    /// The next state and the event, if any, for one information element.
    pub open spec fn step(self, ie: InformationElement) -> (AnalyzerView, Option<EventView>) {
        match ie {
            InformationElement::Sib1 { plmns, tracking_area_code, cell_identity } => {
                (
                    AnalyzerView {
                        last_cell_identity: Some(
                            sib1_identity(
                                plmns@.map_values(|p: String| p@),
                                tracking_area_code@,
                                cell_identity@,
                            ),
                        ),
                        ..self
                    },
                    None,
                )
            },
            InformationElement::Ml1ServingCell { pci, rsrp } => self.on_serving(pci, rsrp),
            InformationElement::Ml1NeighborCells { neighbor_cells } => self.on_neighbors(
                neighbor_cells as nat,
            ),
            InformationElement::Other => (self, None),
        }
    }
}


/// Sum, smallest and largest of the samples in a window.
fn window_stats(w: &VecDeque<i32>) -> (r: (i64, i32, i32))
    requires
        1 <= w@.len() <= RSRP_WINDOW,
    ensures
        r.0 == seq_sum(w@),
        r.1 == seq_min(w@),
        r.2 == seq_max(w@),
{
    let n = w.len();
    let first = w[0];
    let mut sum: i64 = first as i64;
    let mut min: i32 = first;
    let mut max: i32 = first;
    let mut i: usize = 1;
    proof {
        let t = w@.take(1);
        assert(t.drop_last() =~= Seq::<i32>::empty());
        assert(seq_sum(Seq::<i32>::empty()) == 0);
        assert(t.last() == first);
    }
    while i < n
        invariant
            1 <= i <= n == w@.len() <= RSRP_WINDOW,
            sum == seq_sum(w@.take(i as int)),
            min == seq_min(w@.take(i as int)),
            max == seq_max(w@.take(i as int)),
            -0x8000_0000 * i <= sum <= 0x7fff_ffff * i,
        decreases n - i,
    {
        let x = w[i];
        proof {
            let t = w@.take(i + 1);
            assert(t.drop_last() =~= w@.take(i as int));
            assert(t.last() == x);
        }
        sum = sum + x as i64;
        if x < min {
            min = x;
        }
        if x > max {
            max = x;
        }
        i = i + 1;
    }
    assert(w@.take(n as int) =~= w@);
    (sum, min, max)
}

/// Watches ML1 measurements for a strong, stable serving signal and a sparse
/// neighbor list.
pub struct CellTowerAnomalyAnalyzer {
    /// Cell identity from the most recently decoded SIB1.
    last_cell_identity: Option<CellIdentitySummary>,
    serving_pci: Option<u16>,
    rsrp_window: VecDeque<i32>,
    signal_anomaly_flagged_for_pci: Option<u16>,
    neighbor_streak: u32,
    neighbor_streak_flagged: bool,
}

pub open spec fn identity_view(c: Option<CellIdentitySummary>) -> Option<CellIdentityView> {
    match c {
        Some(c) => Some(c@),
        None => None,
    }
}

impl View for CellTowerAnomalyAnalyzer {
    type V = AnalyzerView;

    closed spec fn view(&self) -> AnalyzerView {
        AnalyzerView {
            last_cell_identity: identity_view(self.last_cell_identity),
            serving_pci: self.serving_pci,
            rsrp_window: self.rsrp_window@,
            signal_anomaly_flagged_for_pci: self.signal_anomaly_flagged_for_pci,
            neighbor_streak: self.neighbor_streak,
            neighbor_streak_flagged: self.neighbor_streak_flagged,
        }
    }
}

impl Default for CellTowerAnomalyAnalyzer {
    fn default() -> (r: Self)
        ensures
            r@ == AnalyzerView::initial(),
    {
        Self::new()
    }
}

fn same_pci(a: Option<u16>, pci: u16) -> (r: bool)
    ensures
        r == (a == Some(pci)),
{
    match a {
        Some(p) => p == pci,
        None => false,
    }
}

impl CellTowerAnomalyAnalyzer {
    pub fn new() -> (r: Self)
        ensures
            r@ == AnalyzerView::initial(),
            r@.wf(),
    {
        Self {
            last_cell_identity: None,
            serving_pci: None,
            rsrp_window: VecDeque::with_capacity(RSRP_WINDOW),
            signal_anomaly_flagged_for_pci: None,
            neighbor_streak: 0,
            neighbor_streak_flagged: false,
        }
    }

    /// The identity a decoded SIB1 describes: its PLMNs, and its tracking area
    /// code and cell identity read from their bit strings.
    pub fn cell_identity_from_sib1(
        plmns: Vec<String>,
        tracking_area_code: &[bool],
        cell_identity: &[bool],
    ) -> (r: CellIdentitySummary)
        requires
            1 <= tracking_area_code@.len() <= 16,
            1 <= cell_identity@.len() <= 32,
        ensures
            r@ == sib1_identity(
                plmns@.map_values(|p: String| p@),
                tracking_area_code@,
                cell_identity@,
            ),
    {
        proof {
            lemma_bits_value_bound(tracking_area_code@);
            lemma_two_to_monotonic(tracking_area_code@.len(), 16);
            reveal_with_fuel(two_to, 17);
            assert(two_to(16) == 65536);
        }
        let tac = load_be_u32(tracking_area_code);
        let eci = load_be_u32(cell_identity);
        CellIdentitySummary { plmns, tac: tac as u16, eci }
    }

    /// The serving cell's label: its identity, or a note that none was seen.
    fn cell_label(&self) -> (r: String)
        ensures
            r@ == self@.cell_label(),
    {
        match &self.last_cell_identity {
            Some(c) => c.to_string(),
            None => String::from_str("cell identity not yet seen"),
        }
    }

    fn on_serving_measurement(&mut self, pci: u16, rsrp: i32) -> (r: Option<Event>)
        requires
            old(self)@.wf(),
        ensures
            final(self)@ == old(self)@.on_serving(pci, rsrp).0,
            event_view(r) == old(self)@.on_serving(pci, rsrp).1,
    {
        if !same_pci(self.serving_pci, pci) {
            // New serving cell (or the first one seen): start a fresh
            // baseline instead of comparing signal stability across a
            // handover, which would naturally look unstable.
            self.serving_pci = Some(pci);
            self.rsrp_window.clear();
            self.signal_anomaly_flagged_for_pci = None;
        }
        self.rsrp_window.push_back(rsrp);
        if self.rsrp_window.len() > RSRP_WINDOW {
            self.rsrp_window.pop_front();
        }
        assert(self.rsrp_window@ =~= old(self)@.window_after(pci, rsrp));
        if self.rsrp_window.len() < MIN_RSRP_SAMPLES || same_pci(
            self.signal_anomaly_flagged_for_pci,
            pci,
        ) {
            return None;
        }
        let (sum, min, max) = window_stats(&self.rsrp_window);
        let samples = self.rsrp_window.len();
        let spread = max as i64 - min as i64;
        if !(sum > STRONG_RSRP as i64 * samples as i64 && spread <= STABLE_SPREAD as i64) {
            return None;
        }
        self.signal_anomaly_flagged_for_pci = Some(pci);
        let event_type = if self.neighbor_streak_flagged {
            EventType::Medium
        } else {
            EventType::Low
        };
        Some(
            Event {
                event_type,
                detail: EventDetail::StrongStableSignal {
                    pci,
                    cell: self.cell_label(),
                    rsrp_sum: sum,
                    samples,
                    spread,
                },
            },
        )
    }

    /// Whether the signal anomaly is currently true.
    fn signal_anomaly_is_active(&self) -> (r: bool)
        requires
            self@.wf(),
        ensures
            r == self@.signal_anomaly_active(),
    {
        if self.rsrp_window.len() < MIN_RSRP_SAMPLES {
            return false;
        }
        let (sum, min, max) = window_stats(&self.rsrp_window);
        let samples = self.rsrp_window.len();
        sum > STRONG_RSRP as i64 * samples as i64 && max as i64 - min as i64 <= STABLE_SPREAD as i64
    }

    fn on_neighbor_measurement(&mut self, neighbor_cells: usize) -> (r: Option<Event>)
        requires
            old(self)@.wf(),
            neighbor_cells > 1 || old(self)@.neighbor_streak < u32::MAX,
        ensures
            final(self)@ == old(self)@.on_neighbors(neighbor_cells as nat).0,
            event_view(r) == old(self)@.on_neighbors(neighbor_cells as nat).1,
    {
        if neighbor_cells > 1 {
            self.neighbor_streak = 0;
            self.neighbor_streak_flagged = false;
            return None;
        }
        self.neighbor_streak = self.neighbor_streak + 1;
        if self.neighbor_streak != NEIGHBOR_STREAK_THRESHOLD || self.neighbor_streak_flagged {
            return None;
        }
        self.neighbor_streak_flagged = true;
        let event_type = if self.signal_anomaly_is_active() {
            EventType::Medium
        } else {
            EventType::Informational
        };
        Some(
            Event {
                event_type,
                detail: EventDetail::SparseNeighbors {
                    cell: self.cell_label(),
                    neighbor_cells,
                    streak: self.neighbor_streak,
                },
            },
        )
    }

    pub fn get_name(&self) -> (r: String)
        ensures
            r@ == "Cell Tower Anomaly"@,
    {
        String::from_str("Cell Tower Anomaly")
    }

    pub fn get_description(&self) -> (r: String)
        ensures
            r@ == DESCRIPTION@,
    {
        String::from_str(DESCRIPTION)
    }

    pub fn get_version(&self) -> (r: u32)
        ensures
            r == 1,
    {
        1
    }

    /// Whether [`Self::analyze_information_element`] can take `ie`: SIB1 bit
    /// strings fit their integers, and a run of sparse neighbor reports has
    /// not reached `u32::MAX`.
    pub fn accepts(&self, ie: &InformationElement) -> (r: bool)
        ensures
            r == self@.accepts(*ie),
    {
        match ie {
            InformationElement::Sib1 { tracking_area_code, cell_identity, .. } => {
                1 <= tracking_area_code.len() && tracking_area_code.len() <= 16
                    && 1 <= cell_identity.len() && cell_identity.len() <= 32
            },
            InformationElement::Ml1NeighborCells { neighbor_cells } => {
                *neighbor_cells > 1 || self.neighbor_streak < u32::MAX
            },
            _ => true,
        }
    }

    /// Feeds one information element to the analyzer. The packet number and
    /// timestamp (seconds since the Unix epoch) are not used by this heuristic.
    pub fn analyze_information_element(
        &mut self,
        ie: &InformationElement,
        _packet_num: usize,
        _timestamp: i64,
    ) -> (r: Option<Event>)
        requires
            old(self)@.wf(),
            old(self)@.accepts(*ie),
        ensures
            final(self)@ == old(self)@.step(*ie).0,
            event_view(r) == old(self)@.step(*ie).1,
            final(self)@.wf(),
    {
        let r = match ie {
            InformationElement::Sib1 { plmns, tracking_area_code, cell_identity } => {
                self.last_cell_identity = Some(
                    Self::cell_identity_from_sib1(
                        plmns.clone(),
                        tracking_area_code.as_slice(),
                        cell_identity.as_slice(),
                    ),
                );
                None
            },
            InformationElement::Ml1ServingCell { pci, rsrp } => self.on_serving_measurement(
                *pci,
                *rsrp,
            ),
            InformationElement::Ml1NeighborCells { neighbor_cells } => self.on_neighbor_measurement(
                *neighbor_cells,
            ),
            InformationElement::Other => None,
        };
        proof {
            crate::anomaly_laws::lemma_step_keeps_wf(old(self)@, *ie);
        }
        r
    }
}

/// What the analyzer looks for, in words.
pub const DESCRIPTION: &'static str =
    "Looks for passive cell-site-simulator behavior that doesn't force a downgrade or disable encryption: an unusually strong and suspiciously stable serving-cell signal, and/or a persistently empty or tiny neighbor-cell list. Either signal alone is common in ordinary circumstances -- very close to a legitimate tower, or genuinely rural/low-density coverage -- so this heuristic reports each at low severity alone and escalates only when both are currently true for the same cell.";

} // verus!
