//! The accuracy report: precision and recall by class of call, and calibration by confidence band.
use vstd::prelude::*;

use crate::binary;
use crate::code_plane::HeuristicClass;
use crate::differential::SiteOutcome;
use crate::model::{Provenance, Uid};
use crate::text;

verus! {

/// A confidence band: where the confidence of an edge lies, by how it is known. A higher band must
/// not resolve less reliably than a lower one.
#[derive(Clone, Copy, Debug, PartialEq, Eq, Structural)]
pub enum Band {
    Resolved,
    Extracted,
    Inferred,
    Ambiguous,
}

/// The bands, the highest first.
pub const ALL_BANDS: [Band; 4] = [Band::Resolved, Band::Extracted, Band::Inferred, Band::Ambiguous];

/// The classes of calls, in the order of the report.
pub const ALL_CLASSES: [HeuristicClass; 4] = [
    HeuristicClass::BareSingle,
    HeuristicClass::BareMulti,
    HeuristicClass::ThisMethod,
    HeuristicClass::UnknownReceiver,
];

/// The band of an edge that is known in this way.
pub open spec fn band_of(provenance: Provenance) -> Band {
    match provenance {
        Provenance::Resolved | Provenance::Observed => Band::Resolved,
        Provenance::Extracted => Band::Extracted,
        Provenance::Inferred => Band::Inferred,
        Provenance::Ambiguous | Provenance::Model => Band::Ambiguous,
    }
}

/// The name of a band.
pub open spec fn band_name(band: Band) -> Seq<char> {
    match band {
        Band::Resolved => "RESOLVED"@,
        Band::Extracted => "EXTRACTED"@,
        Band::Inferred => "INFERRED"@,
        Band::Ambiguous => "AMBIGUOUS"@,
    }
}

impl Band {
    /// The band of an edge that is known in this way.
    pub fn from_provenance(provenance: Provenance) -> (r: Band)
        ensures
            r == band_of(provenance),
    {
        match provenance {
            Provenance::Resolved | Provenance::Observed => Band::Resolved,
            Provenance::Extracted => Band::Extracted,
            Provenance::Inferred => Band::Inferred,
            Provenance::Ambiguous | Provenance::Model => Band::Ambiguous,
        }
    }

    /// The place of the band, the highest first.
    pub fn index(self) -> (r: usize)
        ensures
            r < 4,
            ALL_BANDS@[r as int] == self,
    {
        match self {
            Band::Resolved => 0,
            Band::Extracted => 1,
            Band::Inferred => 2,
            Band::Ambiguous => 3,
        }
    }

    /// The name of the band.
    pub fn name(self) -> (r: &'static str)
        ensures
            r@ == band_name(self),
    {
        match self {
            Band::Resolved => "RESOLVED",
            Band::Extracted => "EXTRACTED",
            Band::Inferred => "INFERRED",
            Band::Ambiguous => "AMBIGUOUS",
        }
    }
}

/// The place of a class in the report.
pub fn class_index(class: HeuristicClass) -> (r: usize)
    ensures
        r < 4,
        ALL_CLASSES@[r as int] == class,
{
    match class {
        HeuristicClass::BareSingle => 0,
        HeuristicClass::BareMulti => 1,
        HeuristicClass::ThisMethod => 2,
        HeuristicClass::UnknownReceiver => 3,
    }
}

// ----------------------------------------------------------------------------------------------
// Ratios
// ----------------------------------------------------------------------------------------------

/// A ratio of two counts.
#[derive(Clone, Copy, Debug, PartialEq, Eq, Structural)]
pub struct Ratio {
    pub numer: usize,
    pub denom: usize,
}

/// The ratio of two counts: one where there is nothing to count.
pub open spec fn ratio_of(numer: nat, denom: nat) -> Ratio {
    if denom == 0 {
        Ratio { numer: 1, denom: 1 }
    } else {
        Ratio { numer: numer as usize, denom: denom as usize }
    }
}

/// The ratio of two counts: one where there is nothing to count.
pub fn ratio(numer: usize, denom: usize) -> (r: Ratio)
    ensures
        r == ratio_of(numer as nat, denom as nat),
        r.denom > 0,
{
    if denom == 0 {
        Ratio { numer: 1, denom: 1 }
    } else {
        Ratio { numer, denom }
    }
}

/// The value of a ratio, to fifty-three binary digits.
pub open spec fn value_of(r: Ratio) -> nat {
    binary::quotient(r.numer as nat, r.denom as nat)
}

/// Whether a ratio is that of a part to a whole.
pub open spec fn proper(r: Ratio) -> bool {
    r.numer <= r.denom && 0 < r.denom
}

/// A number below ten thousand with leading zeros, in four digits.
pub open spec fn four_digits(n: nat) -> Seq<char> {
    if n < 10 {
        "000"@ + text::decimal(n)
    } else if n < 100 {
        "00"@ + text::decimal(n)
    } else if n < 1000 {
        "0"@ + text::decimal(n)
    } else {
        text::decimal(n)
    }
}

/// The value of a ratio with four decimals, rounded to the nearest, a half to the even.
pub open spec fn four_decimals(r: Ratio) -> Seq<char> {
    let q = binary::rounded(value_of(r) * 10000, binary::two(116));
    text::decimal(q / 10000) + "."@ + four_digits(q % 10000)
}

/// The value of a ratio with four decimals.
pub fn show_ratio(r: Ratio) -> (s: String)
    requires
        proper(r),
    ensures
        s@ == four_decimals(r),
{
    let q: u128 = binary::divide_counts(r.numer, r.denom).in_units(10000);
    let whole = text::decimal_of(q / 10000);
    let part: u128 = q % 10000;
    let digits = text::decimal_of(part);
    let zeros = if part < 10 {
        "000"
    } else if part < 100 {
        "00"
    } else if part < 1000 {
        "0"
    } else {
        ""
    };
    let padded = text::concat2(zeros, digits.as_str());
    proof {
        if part >= 1000 {
            reveal_strlit("");
            assert(padded@ =~= text::decimal(part as nat));
        }
    }
    text::concat3(whole.as_str(), ".", padded.as_str())
}

// ----------------------------------------------------------------------------------------------
// Tallies
// ----------------------------------------------------------------------------------------------

/// How many of the first `n` targets are this one.
pub open spec fn same_count(targets: Seq<Uid>, target: Seq<char>, n: nat) -> nat
    decreases n,
{
    if n == 0 {
        0
    } else {
        same_count(targets, target, (n - 1) as nat) + if targets[n - 1]@ == target { 1nat } else { 0 }
    }
}

/// How many edges of an outcome the index confirms.
pub open spec fn confirmed(o: SiteOutcome) -> nat {
    match o.scip_target {
        Some(t) => same_count(o.heuristic_targets@, t@, o.heuristic_targets@.len()),
        None => 0,
    }
}

/// How many edges of an outcome the index denies.
pub open spec fn denied(o: SiteOutcome) -> nat {
    match o.scip_target {
        Some(_) => (o.heuristic_targets@.len() - confirmed(o)) as nat,
        None => 0,
    }
}

/// Which outcomes are tallied.
pub enum Group {
    All,
    Class(HeuristicClass),
    Band(Band),
}

/// Whether an outcome is tallied.
pub open spec fn in_group(o: SiteOutcome, group: Group) -> bool {
    match group {
        Group::All => true,
        Group::Class(class) => o.class == class,
        Group::Band(band) => band_of(o.heuristic_provenance) == band,
    }
}

/// A tally of outcomes.
#[derive(Clone, Copy, Debug, PartialEq, Eq, Structural)]
pub struct Tally {
    /// Sites that the index covers.
    pub sites: usize,
    /// Sites whose target is among those by name.
    pub recall_hits: usize,
    pub true_positive_edges: usize,
    pub false_positive_edges: usize,
    /// Sites that the index does not cover.
    pub unadjudicable: usize,
}

/// The counts of a [`Tally`], without bound.
pub struct TallyView {
    pub sites: nat,
    pub hits: nat,
    pub tp: nat,
    pub fp: nat,
    pub unadjudicable: nat,
}

impl View for Tally {
    type V = TallyView;

    open spec fn view(&self) -> TallyView {
        TallyView {
            sites: self.sites as nat,
            hits: self.recall_hits as nat,
            tp: self.true_positive_edges as nat,
            fp: self.false_positive_edges as nat,
            unadjudicable: self.unadjudicable as nat,
        }
    }
}

/// A tally with one more outcome.
pub open spec fn tallied(t: TallyView, o: SiteOutcome, group: Group) -> TallyView {
    if !in_group(o, group) {
        t
    } else if o.scip_target is None {
        TallyView { unadjudicable: t.unadjudicable + 1, ..t }
    } else {
        TallyView {
            sites: t.sites + 1,
            hits: t.hits + if confirmed(o) > 0 { 1nat } else { 0 },
            tp: t.tp + confirmed(o),
            fp: t.fp + denied(o),
            unadjudicable: t.unadjudicable,
        }
    }
}

/// The tally of those of the first `n` outcomes that are of a group.
pub open spec fn tally_upto(outcomes: Seq<SiteOutcome>, group: Group, n: nat) -> TallyView
    decreases n,
{
    if n == 0 {
        TallyView { sites: 0, hits: 0, tp: 0, fp: 0, unadjudicable: 0 }
    } else {
        tallied(tally_upto(outcomes, group, (n - 1) as nat), outcomes[n - 1], group)
    }
}

/// The tally of the outcomes of a group.
pub open spec fn tally_of(outcomes: Seq<SiteOutcome>, group: Group) -> TallyView {
    tally_upto(outcomes, group, outcomes.len())
}

/// The number of targets by name of the first `n` outcomes.
pub open spec fn edge_total(outcomes: Seq<SiteOutcome>, n: nat) -> nat
    decreases n,
{
    if n == 0 {
        0
    } else {
        edge_total(outcomes, (n - 1) as nat) + outcomes[n - 1].heuristic_targets@.len()
    }
}

proof fn lemma_edge_total(outcomes: Seq<SiteOutcome>, n: nat, m: nat)
    requires
        n <= m,
    ensures
        edge_total(outcomes, n) <= edge_total(outcomes, m),
    decreases m,
{
    if n < m {
        lemma_edge_total(outcomes, n, (m - 1) as nat);
    }
}

fn count_same(targets: &Vec<Uid>, target: &Uid) -> (r: usize)
    ensures
        r == same_count(targets@, target@, targets@.len()),
        r <= targets@.len(),
{
    let mut n: usize = 0;
    let mut i: usize = 0;
    while i < targets.len()
        invariant
            i <= targets@.len(),
            n <= i,
            n == same_count(targets@, target@, i as nat),
        decreases targets@.len() - i,
    {
        if targets[i].same(target) {
            n = n + 1;
        }
        i = i + 1;
    }
    n
}

fn is_member(o: &SiteOutcome, group: &Group) -> (r: bool)
    ensures
        r == in_group(*o, *group),
{
    match group {
        Group::All => true,
        Group::Class(class) => o.class == *class,
        Group::Band(band) => Band::from_provenance(o.heuristic_provenance) == *band,
    }
}

fn tally(outcomes: &Vec<SiteOutcome>, group: Group) -> (r: Tally)
    requires
        edge_total(outcomes@, outcomes@.len()) <= usize::MAX,
    ensures
        r@ == tally_of(outcomes@, group),
        r.true_positive_edges + r.false_positive_edges <= usize::MAX,
        r.sites + r.unadjudicable <= outcomes@.len(),
{
    let mut t = Tally {
        sites: 0,
        recall_hits: 0,
        true_positive_edges: 0,
        false_positive_edges: 0,
        unadjudicable: 0,
    };
    let mut i: usize = 0;
    while i < outcomes.len()
        invariant
            i <= outcomes@.len(),
            edge_total(outcomes@, outcomes@.len()) <= usize::MAX,
            t@ == tally_upto(outcomes@, group, i as nat),
            t.sites + t.unadjudicable <= i,
            t.recall_hits <= t.sites,
            t.true_positive_edges + t.false_positive_edges <= edge_total(outcomes@, i as nat),
        decreases outcomes@.len() - i,
    {
        let o = &outcomes[i];
        proof {
            lemma_edge_total(outcomes@, (i + 1) as nat, outcomes@.len());
        }
        if is_member(o, &group) {
            match &o.scip_target {
                None => {
                    t.unadjudicable = t.unadjudicable + 1;
                },
                Some(target) => {
                    let good: usize = count_same(&o.heuristic_targets, target);
                    let bad: usize = o.heuristic_targets.len() - good;
                    t.sites = t.sites + 1;
                    if good > 0 {
                        t.recall_hits = t.recall_hits + 1;
                    }
                    t.true_positive_edges = t.true_positive_edges + good;
                    t.false_positive_edges = t.false_positive_edges + bad;
                },
            }
        }
        i = i + 1;
    }
    proof {
        lemma_edge_total(outcomes@, outcomes@.len(), outcomes@.len());
    }
    t
}

// ----------------------------------------------------------------------------------------------
// The report
// ----------------------------------------------------------------------------------------------

/// How the edges of a band do. There is no precision where the index says nothing of an edge.
#[derive(Clone, Copy, Debug, PartialEq, Eq, Structural)]
pub struct BandMetrics {
    pub band: Band,
    /// Sites that the index covers.
    pub sites: usize,
    pub confirmed: usize,
    pub denied: usize,
    pub precision: Option<Ratio>,
    /// Sites that the index does not cover.
    pub unadjudicable: usize,
}

/// How the calls of a class do.
#[derive(Clone, Copy, Debug, PartialEq, Eq, Structural)]
pub struct ClassMetrics {
    pub class: HeuristicClass,
    /// Sites that the index covers.
    pub sites: usize,
    pub precision: Ratio,
    pub recall: Ratio,
}

/// The accuracy report.
#[derive(Debug, PartialEq, Eq)]
pub struct AccuracyReport {
    /// By class, in the order of [`ALL_CLASSES`].
    pub per_class: Vec<ClassMetrics>,
    /// By band, in the order of [`ALL_BANDS`].
    pub by_band: Vec<BandMetrics>,
    pub overall_precision: Ratio,
    pub overall_recall: Ratio,
    pub covered_sites: usize,
    pub uncovered_sites: usize,
}

/// Whether metrics are those of a tally.
pub open spec fn class_metrics(m: ClassMetrics, class: HeuristicClass, t: TallyView) -> bool {
    &&& m.class == class
    &&& m.sites == t.sites
    &&& m.precision == ratio_of(t.tp, t.tp + t.fp)
    &&& m.recall == ratio_of(t.hits, t.sites)
}

/// Whether metrics are those of a tally.
pub open spec fn band_metrics(m: BandMetrics, band: Band, t: TallyView) -> bool {
    &&& m.band == band
    &&& m.sites == t.sites
    &&& m.confirmed == t.tp
    &&& m.denied == t.fp
    &&& m.precision == (if t.tp + t.fp == 0 {
        None::<Ratio>
    } else {
        Some(ratio_of(t.tp, t.tp + t.fp))
    })
    &&& m.unadjudicable == t.unadjudicable
}

fn measure_class(outcomes: &Vec<SiteOutcome>, class: HeuristicClass) -> (r: ClassMetrics)
    requires
        edge_total(outcomes@, outcomes@.len()) <= usize::MAX,
    ensures
        class_metrics(r, class, tally_of(outcomes@, Group::Class(class))),
{
    let t = tally(outcomes, Group::Class(class));
    let edges: usize = t.true_positive_edges + t.false_positive_edges;
    ClassMetrics {
        class,
        sites: t.sites,
        precision: ratio(t.true_positive_edges, edges),
        recall: ratio(t.recall_hits, t.sites),
    }
}

fn measure_band(outcomes: &Vec<SiteOutcome>, band: Band) -> (r: BandMetrics)
    requires
        edge_total(outcomes@, outcomes@.len()) <= usize::MAX,
    ensures
        band_metrics(r, band, tally_of(outcomes@, Group::Band(band))),
        r.precision matches Some(p) ==> proper(p),
{
    let t = tally(outcomes, Group::Band(band));
    let edges: usize = t.true_positive_edges + t.false_positive_edges;
    BandMetrics {
        band,
        sites: t.sites,
        confirmed: t.true_positive_edges,
        denied: t.false_positive_edges,
        precision: if edges == 0 {
            None
        } else {
            Some(ratio(t.true_positive_edges, edges))
        },
        unadjudicable: t.unadjudicable,
    }
}

/// Whether a report is that of a set of outcomes: every class and every band in its order, each over
/// its own outcomes, and the whole over all of them.
pub open spec fn measures(r: AccuracyReport, outcomes: Seq<SiteOutcome>) -> bool {
    let all = tally_of(outcomes, Group::All);
    &&& r.per_class@.len() == 4
    &&& forall|i: int|
        0 <= i < 4 ==> class_metrics(
            #[trigger] r.per_class@[i],
            ALL_CLASSES@[i],
            tally_of(outcomes, Group::Class(ALL_CLASSES@[i])),
        )
    &&& r.by_band@.len() == 4
    &&& forall|i: int|
        0 <= i < 4 ==> band_metrics(
            #[trigger] r.by_band@[i],
            ALL_BANDS@[i],
            tally_of(outcomes, Group::Band(ALL_BANDS@[i])),
        )
    &&& r.overall_precision == ratio_of(all.tp, all.tp + all.fp)
    &&& r.overall_recall == ratio_of(all.hits, all.sites)
    &&& r.covered_sites == all.sites
    &&& r.uncovered_sites == all.unadjudicable
}

/// Measures a set of outcomes. Over the sites that the index covers: precision is the part of the
/// edges by name that the index confirms, recall the part of the sites whose target is among those
/// by name. By class both are one where there is nothing to measure; by band there is no precision
/// then.
pub fn accuracy_report(outcomes: &Vec<SiteOutcome>) -> (r: AccuracyReport)
    requires
        edge_total(outcomes@, outcomes@.len()) <= usize::MAX,
    ensures
        measures(r, outcomes@),
        valid_metrics(r.by_band@),
{
    let mut per_class: Vec<ClassMetrics> = Vec::new();
    per_class.push(measure_class(outcomes, HeuristicClass::BareSingle));
    per_class.push(measure_class(outcomes, HeuristicClass::BareMulti));
    per_class.push(measure_class(outcomes, HeuristicClass::ThisMethod));
    per_class.push(measure_class(outcomes, HeuristicClass::UnknownReceiver));
    let mut by_band: Vec<BandMetrics> = Vec::new();
    by_band.push(measure_band(outcomes, Band::Resolved));
    by_band.push(measure_band(outcomes, Band::Extracted));
    by_band.push(measure_band(outcomes, Band::Inferred));
    by_band.push(measure_band(outcomes, Band::Ambiguous));
    let all = tally(outcomes, Group::All);
    let edges: usize = all.true_positive_edges + all.false_positive_edges;
    AccuracyReport {
        per_class,
        by_band,
        overall_precision: ratio(all.true_positive_edges, edges),
        overall_recall: ratio(all.recall_hits, all.sites),
        covered_sites: all.sites,
        uncovered_sites: all.unadjudicable,
    }
}

/// The place of the metrics of a class at or after `from`, or -1.
pub open spec fn class_place(metrics: Seq<ClassMetrics>, class: HeuristicClass, from: int) -> int
    decreases metrics.len() - from,
{
    if from >= metrics.len() {
        -1
    } else if metrics[from].class == class {
        from
    } else {
        class_place(metrics, class, from + 1)
    }
}

/// The place of the metrics of a band at or after `from`, or -1.
pub open spec fn band_place(metrics: Seq<BandMetrics>, band: Band, from: int) -> int
    decreases metrics.len() - from,
{
    if from >= metrics.len() {
        -1
    } else if metrics[from].band == band {
        from
    } else {
        band_place(metrics, band, from + 1)
    }
}

/// The precision of a band.
pub open spec fn band_precision(metrics: Seq<BandMetrics>, band: Band) -> Option<Ratio> {
    let at = band_place(metrics, band, 0);
    if at < 0 {
        None
    } else {
        metrics[at].precision
    }
}

/// Whether the value of a ratio is greater than that of another with a billionth added.
pub open spec fn exceeds(p: Ratio, hi: Ratio) -> bool {
    value_of(p) > binary::sum(value_of(hi), binary::quotient(1, 1_000_000_000))
}

/// What is said of an inversion.
pub open spec fn inversion_text(low: Band, p: Ratio, high: Band, hi: Ratio) -> Seq<char> {
    "band calibration inverted: "@ + band_name(low) + " precision "@ + four_decimals(p) + " > higher band "@
        + band_name(high) + " precision "@ + four_decimals(hi)
        + " — a higher-confidence band must not resolve less reliably (§4.1)"@
}

/// The first inversion at or after place `from` of the bands, given the band before that has a
/// precision. Bands without a precision are passed over.
pub open spec fn inversion_from(metrics: Seq<BandMetrics>, prev: Option<(Band, Ratio)>, from: int) -> Option<Seq<char>>
    decreases 4 - from,
{
    if from >= 4 {
        None
    } else {
        let band = ALL_BANDS@[from];
        match band_precision(metrics, band) {
            None => inversion_from(metrics, prev, from + 1),
            Some(p) => match prev {
                Some(h) => if exceeds(p, h.1) {
                    Some(inversion_text(band, p, h.0, h.1))
                } else {
                    inversion_from(metrics, Some((band, p)), from + 1)
                },
                None => inversion_from(metrics, Some((band, p)), from + 1),
            },
        }
    }
}

/// Whether the precisions are ratios of a part to a whole.
pub open spec fn valid_metrics(metrics: Seq<BandMetrics>) -> bool {
    forall|i: int| 0 <= i < metrics.len() ==> ((#[trigger] metrics[i]).precision matches Some(p) ==> proper(p))
}

fn is_above(p: Ratio, hi: Ratio) -> (r: bool)
    requires
        proper(p),
        proper(hi),
    ensures
        r == exceeds(p, hi),
{
    let a: u128 = binary::divide_counts(p.numer, p.denom).in_steps();
    let b: u128 = binary::divide_counts(hi.numer, hi.denom).in_steps();
    let slack: u128 = binary::divide_counts(1, 1_000_000_000).in_steps();
    a > binary::nearest(b + slack)
}

impl AccuracyReport {
    /// The metrics of a class.
    pub fn class(&self, class: HeuristicClass) -> (r: Option<&ClassMetrics>)
        ensures
            match r {
                Some(m) => class_place(self.per_class@, class, 0) >= 0 && *m == self.per_class@[class_place(
                    self.per_class@,
                    class,
                    0,
                )],
                None => class_place(self.per_class@, class, 0) < 0,
            },
    {
        let mut i: usize = 0;
        while i < self.per_class.len()
            invariant
                i <= self.per_class@.len(),
                class_place(self.per_class@, class, 0) == class_place(self.per_class@, class, i as int),
            decreases self.per_class@.len() - i,
        {
            if self.per_class[i].class == class {
                return Some(&self.per_class[i]);
            }
            i = i + 1;
        }
        None
    }

    /// The metrics of a band.
    pub fn band(&self, band: Band) -> (r: Option<&BandMetrics>)
        ensures
            match r {
                Some(m) => band_place(self.by_band@, band, 0) >= 0 && *m == self.by_band@[band_place(
                    self.by_band@,
                    band,
                    0,
                )],
                None => band_place(self.by_band@, band, 0) < 0,
            },
    {
        let mut i: usize = 0;
        while i < self.by_band.len()
            invariant
                i <= self.by_band@.len(),
                band_place(self.by_band@, band, 0) == band_place(self.by_band@, band, i as int),
            decreases self.by_band@.len() - i,
        {
            if self.by_band[i].band == band {
                return Some(&self.by_band[i]);
            }
            i = i + 1;
        }
        None
    }

    /// Checks that no band resolves more reliably than a higher one: of the bands that have a
    /// precision, each against the one before it. Says what is wrong with the first that does.
    pub fn check_band_monotonicity(&self) -> (r: Result<(), String>)
        requires
            valid_metrics(self.by_band@),
        ensures
            match r {
                Ok(_) => inversion_from(self.by_band@, None, 0) is None,
                Err(e) => inversion_from(self.by_band@, None, 0) == Some(e@),
            },
    {
        let mut prev: Option<(Band, Ratio)> = None;
        let mut i: usize = 0;
        while i < 4
            invariant
                i <= 4,
                valid_metrics(self.by_band@),
                prev matches Some(h) ==> proper(h.1),
                inversion_from(self.by_band@, None, 0) == inversion_from(self.by_band@, prev, i as int),
            decreases 4 - i,
        {
            let band = ALL_BANDS[i];
            let found = match self.band(band) {
                Some(m) => m.precision,
                None => None,
            };
            proof {
                lemma_band_place(self.by_band@, band, 0);
            }
            assert(found == band_precision(self.by_band@, band));
            match found {
                None => {},
                Some(p) => {
                    match prev {
                        Some((high, hi)) => {
                            if is_above(p, hi) {
                                let mut s = text::concat3("band calibration inverted: ", band.name(), " precision ");
                                let ps = show_ratio(p);
                                s.append(ps.as_str());
                                s.append(" > higher band ");
                                s.append(high.name());
                                s.append(" precision ");
                                let hs = show_ratio(hi);
                                s.append(hs.as_str());
                                s.append(" — a higher-confidence band must not resolve less reliably (§4.1)");
                                return Err(s);
                            }
                        },
                        None => {},
                    }
                    prev = Some((band, p));
                },
            }
            i = i + 1;
        }
        Ok(())
    }
}

proof fn lemma_band_place(metrics: Seq<BandMetrics>, band: Band, from: int)
    requires
        0 <= from,
    ensures
        band_place(metrics, band, from) < metrics.len(),
        band_place(metrics, band, from) >= 0 ==> band_place(metrics, band, from) >= from && metrics[band_place(
            metrics,
            band,
            from,
        )].band == band,
    decreases metrics.len() - from,
{
    if from < metrics.len() && metrics[from].band != band {
        lemma_band_place(metrics, band, from + 1);
    }
}

// ----------------------------------------------------------------------------------------------
// Laws
// ----------------------------------------------------------------------------------------------

proof fn lemma_groups(outcomes: Seq<SiteOutcome>, n: nat)
    requires
        n <= outcomes.len(),
    ensures
        ({
            let all = tally_upto(outcomes, Group::All, n);
            let b0 = tally_upto(outcomes, Group::Band(Band::Resolved), n);
            let b1 = tally_upto(outcomes, Group::Band(Band::Extracted), n);
            let b2 = tally_upto(outcomes, Group::Band(Band::Inferred), n);
            let b3 = tally_upto(outcomes, Group::Band(Band::Ambiguous), n);
            let c0 = tally_upto(outcomes, Group::Class(HeuristicClass::BareSingle), n);
            let c1 = tally_upto(outcomes, Group::Class(HeuristicClass::BareMulti), n);
            let c2 = tally_upto(outcomes, Group::Class(HeuristicClass::ThisMethod), n);
            let c3 = tally_upto(outcomes, Group::Class(HeuristicClass::UnknownReceiver), n);
            &&& all.sites == b0.sites + b1.sites + b2.sites + b3.sites
            &&& all.tp == b0.tp + b1.tp + b2.tp + b3.tp
            &&& all.fp == b0.fp + b1.fp + b2.fp + b3.fp
            &&& all.unadjudicable == b0.unadjudicable + b1.unadjudicable + b2.unadjudicable + b3.unadjudicable
            &&& all.sites == c0.sites + c1.sites + c2.sites + c3.sites
            &&& all.hits == c0.hits + c1.hits + c2.hits + c3.hits
            &&& all.tp == c0.tp + c1.tp + c2.tp + c3.tp
            &&& all.fp == c0.fp + c1.fp + c2.fp + c3.fp
            &&& all.sites + all.unadjudicable == n
            &&& all.hits <= all.sites
        }),
    decreases n,
{
    if n > 0 {
        lemma_groups(outcomes, (n - 1) as nat);
    }
}

/// The views of the report are regroupings of the same edges and sites: summed over the bands, or
/// over the classes, they give the overall counts, and every site is either covered or not.
pub proof fn law_groups_reconcile(outcomes: Seq<SiteOutcome>)
    ensures
        ({
            let all = tally_of(outcomes, Group::All);
            let b0 = tally_of(outcomes, Group::Band(Band::Resolved));
            let b1 = tally_of(outcomes, Group::Band(Band::Extracted));
            let b2 = tally_of(outcomes, Group::Band(Band::Inferred));
            let b3 = tally_of(outcomes, Group::Band(Band::Ambiguous));
            let c0 = tally_of(outcomes, Group::Class(HeuristicClass::BareSingle));
            let c1 = tally_of(outcomes, Group::Class(HeuristicClass::BareMulti));
            let c2 = tally_of(outcomes, Group::Class(HeuristicClass::ThisMethod));
            let c3 = tally_of(outcomes, Group::Class(HeuristicClass::UnknownReceiver));
            &&& all.sites == b0.sites + b1.sites + b2.sites + b3.sites
            &&& all.tp == b0.tp + b1.tp + b2.tp + b3.tp
            &&& all.fp == b0.fp + b1.fp + b2.fp + b3.fp
            &&& all.unadjudicable == b0.unadjudicable + b1.unadjudicable + b2.unadjudicable + b3.unadjudicable
            &&& all.sites == c0.sites + c1.sites + c2.sites + c3.sites
            &&& all.hits == c0.hits + c1.hits + c2.hits + c3.hits
            &&& all.tp == c0.tp + c1.tp + c2.tp + c3.tp
            &&& all.fp == c0.fp + c1.fp + c2.fp + c3.fp
            &&& all.sites + all.unadjudicable == outcomes.len()
            &&& all.hits <= all.sites
        }),
{
    lemma_groups(outcomes, outcomes.len());
}

/// A report adds up: every outcome is covered or not; summed over the bands, the sites are those that
/// are covered and those that are not, and the confirmed and denied edges give the overall precision;
/// summed over the classes, the sites are those that are covered. A band has a precision exactly
/// where an edge of it was confirmed or denied, and it is the part that was confirmed.
pub proof fn law_report_adds_up(outcomes: Seq<SiteOutcome>, r: AccuracyReport)
    requires
        measures(r, outcomes),
    ensures
        r.covered_sites + r.uncovered_sites == outcomes.len(),
        ({
            let b = r.by_band@;
            let c = r.per_class@;
            let confirmed = b[0].confirmed + b[1].confirmed + b[2].confirmed + b[3].confirmed;
            let denied = b[0].denied + b[1].denied + b[2].denied + b[3].denied;
            &&& b[0].sites + b[1].sites + b[2].sites + b[3].sites == r.covered_sites
            &&& b[0].unadjudicable + b[1].unadjudicable + b[2].unadjudicable + b[3].unadjudicable
                == r.uncovered_sites
            &&& c[0].sites + c[1].sites + c[2].sites + c[3].sites == r.covered_sites
            &&& r.overall_precision == ratio_of(confirmed as nat, (confirmed + denied) as nat)
        }),
        forall|i: int|
            0 <= i < 4 ==> (#[trigger] r.by_band@[i]).precision == if r.by_band@[i].confirmed + r.by_band@[i].denied
                == 0 {
                None::<Ratio>
            } else {
                Some(
                    ratio_of(
                        r.by_band@[i].confirmed as nat,
                        (r.by_band@[i].confirmed + r.by_band@[i].denied) as nat,
                    ),
                )
            },
{
    law_groups_reconcile(outcomes);
    assert(ALL_BANDS@[0] == Band::Resolved && ALL_BANDS@[1] == Band::Extracted);
    assert(ALL_BANDS@[2] == Band::Inferred && ALL_BANDS@[3] == Band::Ambiguous);
    assert(ALL_CLASSES@[0] == HeuristicClass::BareSingle && ALL_CLASSES@[1] == HeuristicClass::BareMulti);
    assert(ALL_CLASSES@[2] == HeuristicClass::ThisMethod && ALL_CLASSES@[3] == HeuristicClass::UnknownReceiver);
    assert(band_metrics(r.by_band@[0], ALL_BANDS@[0], tally_of(outcomes, Group::Band(ALL_BANDS@[0]))));
    assert(band_metrics(r.by_band@[1], ALL_BANDS@[1], tally_of(outcomes, Group::Band(ALL_BANDS@[1]))));
    assert(band_metrics(r.by_band@[2], ALL_BANDS@[2], tally_of(outcomes, Group::Band(ALL_BANDS@[2]))));
    assert(band_metrics(r.by_band@[3], ALL_BANDS@[3], tally_of(outcomes, Group::Band(ALL_BANDS@[3]))));
    assert(class_metrics(r.per_class@[0], ALL_CLASSES@[0], tally_of(outcomes, Group::Class(ALL_CLASSES@[0]))));
    assert(class_metrics(r.per_class@[1], ALL_CLASSES@[1], tally_of(outcomes, Group::Class(ALL_CLASSES@[1]))));
    assert(class_metrics(r.per_class@[2], ALL_CLASSES@[2], tally_of(outcomes, Group::Class(ALL_CLASSES@[2]))));
    assert(class_metrics(r.per_class@[3], ALL_CLASSES@[3], tally_of(outcomes, Group::Class(ALL_CLASSES@[3]))));
}

proof fn lemma_tally_prefix(a: Seq<SiteOutcome>, b: Seq<SiteOutcome>, group: Group, n: nat)
    requires
        n <= a.len(),
        n <= b.len(),
        forall|i: int| 0 <= i < n ==> a[i] == b[i],
    ensures
        tally_upto(a, group, n) == tally_upto(b, group, n),
    decreases n,
{
    if n > 0 {
        lemma_tally_prefix(a, b, group, (n - 1) as nat);
        assert(a[n - 1] == b[n - 1]);
    }
}

proof fn lemma_tally_without(a: Seq<SiteOutcome>, group: Group, i: int, n: nat)
    requires
        0 <= i < n <= a.len(),
    ensures
        tally_upto(a, group, n) == tallied(tally_upto(a.remove(i), group, (n - 1) as nat), a[i], group),
    decreases n,
{
    let b = a.remove(i);
    if i == n - 1 {
        lemma_tally_prefix(a, b, group, (n - 1) as nat);
    } else {
        lemma_tally_without(a, group, i, (n - 1) as nat);
        assert(b[n - 2] == a[n - 1]);
    }
}

proof fn lemma_tally_of_permuted(a: Seq<SiteOutcome>, b: Seq<SiteOutcome>, group: Group)
    requires
        a.to_multiset() == b.to_multiset(),
    ensures
        a.len() == b.len(),
        tally_of(a, group) == tally_of(b, group),
    decreases a.len(),
{
    a.to_multiset_ensures();
    b.to_multiset_ensures();
    if a.len() > 0 {
        let n = a.len();
        let x = a[n - 1];
        assert(a.contains(x));
        assert(a.to_multiset().count(x) > 0);
        assert(b.contains(x));
        let i = choose|i: int| 0 <= i < b.len() && b[i] == x;
        assert(a.remove(n - 1).to_multiset() == b.remove(i).to_multiset());
        lemma_tally_of_permuted(a.remove(n - 1), b.remove(i), group);
        lemma_tally_without(a, group, n - 1, n);
        lemma_tally_without(b, group, i, n);
    }
}

/// The order of the outcomes does not matter: the same outcomes in another order give the same
/// tallies and the same report.
pub proof fn law_order_does_not_matter(
    a: Seq<SiteOutcome>,
    b: Seq<SiteOutcome>,
    r: AccuracyReport,
    q: AccuracyReport,
)
    requires
        a.to_multiset() == b.to_multiset(),
        measures(r, a),
        measures(q, b),
    ensures
        forall|group: Group| #[trigger] tally_of(a, group) == tally_of(b, group),
        r.per_class@ == q.per_class@,
        r.by_band@ == q.by_band@,
        r.overall_precision == q.overall_precision,
        r.overall_recall == q.overall_recall,
        r.covered_sites == q.covered_sites,
        r.uncovered_sites == q.uncovered_sites,
{
    assert forall|group: Group| #[trigger] tally_of(a, group) == tally_of(b, group) by {
        lemma_tally_of_permuted(a, b, group);
    }
    assert forall|i: int| 0 <= i < 4 implies r.per_class@[i] == q.per_class@[i] by {
        assert(class_metrics(r.per_class@[i], ALL_CLASSES@[i], tally_of(a, Group::Class(ALL_CLASSES@[i]))));
        assert(class_metrics(q.per_class@[i], ALL_CLASSES@[i], tally_of(b, Group::Class(ALL_CLASSES@[i]))));
    }
    assert(r.per_class@ =~= q.per_class@);
    assert forall|i: int| 0 <= i < 4 implies r.by_band@[i] == q.by_band@[i] by {
        assert(band_metrics(r.by_band@[i], ALL_BANDS@[i], tally_of(a, Group::Band(ALL_BANDS@[i]))));
        assert(band_metrics(q.by_band@[i], ALL_BANDS@[i], tally_of(b, Group::Band(ALL_BANDS@[i]))));
    }
    assert(r.by_band@ =~= q.by_band@);
}

proof fn lemma_top_bands_empty(outcomes: Seq<SiteOutcome>, n: nat)
    requires
        n <= outcomes.len(),
        forall|i: int|
            0 <= i < outcomes.len() ==> ((#[trigger] outcomes[i]).heuristic_provenance == Provenance::Inferred
                || outcomes[i].heuristic_provenance == Provenance::Ambiguous),
    ensures
        tally_upto(outcomes, Group::Band(Band::Resolved), n) == (TallyView {
            sites: 0,
            hits: 0,
            tp: 0,
            fp: 0,
            unadjudicable: 0,
        }),
        tally_upto(outcomes, Group::Band(Band::Extracted), n) == (TallyView {
            sites: 0,
            hits: 0,
            tp: 0,
            fp: 0,
            unadjudicable: 0,
        }),
    decreases n,
{
    if n > 0 {
        lemma_top_bands_empty(outcomes, (n - 1) as nat);
    }
}

/// No guess by name passes for a fact: where every edge is an inference or an ambiguity, the two
/// highest bands hold no site, so that they have no precision.
pub proof fn law_guesses_claim_no_fact(outcomes: Seq<SiteOutcome>, resolved: BandMetrics, extracted: BandMetrics)
    requires
        forall|i: int|
            0 <= i < outcomes.len() ==> ((#[trigger] outcomes[i]).heuristic_provenance == Provenance::Inferred
                || outcomes[i].heuristic_provenance == Provenance::Ambiguous),
        band_metrics(resolved, Band::Resolved, tally_of(outcomes, Group::Band(Band::Resolved))),
        band_metrics(extracted, Band::Extracted, tally_of(outcomes, Group::Band(Band::Extracted))),
    ensures
        resolved.sites == 0,
        resolved.unadjudicable == 0,
        resolved.precision is None,
        extracted.sites == 0,
        extracted.unadjudicable == 0,
        extracted.precision is None,
{
    lemma_top_bands_empty(outcomes, outcomes.len());
}

/// Whether a ratio is no greater than another.
pub open spec fn at_most(p: Ratio, hi: Ratio) -> bool {
    p.numer * hi.denom <= hi.numer * p.denom
}

/// Whether no band has a greater precision than a higher one, among those that have a precision.
pub open spec fn bands_ordered(metrics: Seq<BandMetrics>) -> bool {
    forall|i: int, j: int|
        0 <= i < j < 4 ==> match (
            #[trigger] band_precision(metrics, ALL_BANDS@[i]),
            #[trigger] band_precision(metrics, ALL_BANDS@[j]),
        ) {
            (Some(hi), Some(p)) => at_most(p, hi),
            _ => true,
        }
}

proof fn lemma_proper(metrics: Seq<BandMetrics>, band: Band)
    requires
        valid_metrics(metrics),
    ensures
        band_precision(metrics, band) matches Some(p) ==> proper(p),
{
    lemma_band_place(metrics, band, 0);
}

proof fn lemma_ordered_from(metrics: Seq<BandMetrics>, at: int, from: int)
    requires
        valid_metrics(metrics),
        bands_ordered(metrics),
        -1 <= at < from,
        0 <= from <= 4,
        at >= 0 ==> band_precision(metrics, ALL_BANDS@[at]) is Some,
    ensures
        inversion_from(
            metrics,
            if at < 0 {
                None
            } else {
                Some((ALL_BANDS@[at], band_precision(metrics, ALL_BANDS@[at])->0))
            },
            from,
        ) is None,
    decreases 4 - from,
{
    if from < 4 {
        lemma_proper(metrics, ALL_BANDS@[from]);
        match band_precision(metrics, ALL_BANDS@[from]) {
            None => lemma_ordered_from(metrics, at, from + 1),
            Some(p) => {
                if at >= 0 {
                    lemma_proper(metrics, ALL_BANDS@[at]);
                    let hi = band_precision(metrics, ALL_BANDS@[at])->0;
                    binary::law_order_survives_rounding(
                        p.numer as nat,
                        p.denom as nat,
                        hi.numer as nat,
                        hi.denom as nat,
                    );
                }
                lemma_ordered_from(metrics, from, from + 1);
            },
        }
    }
}

/// Bands that are in order pass: where none of those that have a precision has a greater one than a
/// higher band, no inversion is found.
pub proof fn law_ordered_bands_pass(metrics: Seq<BandMetrics>)
    requires
        valid_metrics(metrics),
        bands_ordered(metrics),
    ensures
        inversion_from(metrics, None, 0) is None,
{
    lemma_ordered_from(metrics, -1, 0);
}

} // verus!
