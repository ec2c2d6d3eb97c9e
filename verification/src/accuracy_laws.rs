//! What a report on accuracy counts, told by the outcomes.
use vstd::prelude::*;

use crate::accuracy;
use crate::accuracy::{Band, BandMetrics, Group, Ratio};
use crate::binary;
use crate::differential::SiteOutcome;
use crate::model::Provenance;
use crate::order;
use crate::scip_merge;

verus! {

/// Whether an outcome is of a band.
pub open spec fn is_of_band(o: SiteOutcome, band: Band) -> bool {
    let p = o.heuristic_provenance;
    match band {
        Band::Resolved => p == Provenance::Resolved || p == Provenance::Observed,
        Band::Extracted => p == Provenance::Extracted,
        Band::Inferred => p == Provenance::Inferred,
        Band::Ambiguous => p == Provenance::Ambiguous || p == Provenance::Model,
    }
}

/// Whether an outcome is of a group.
pub open spec fn is_of(o: SiteOutcome, group: Group) -> bool {
    match group {
        Group::All => true,
        Group::Class(class) => o.class == class,
        Group::Band(band) => is_of_band(o, band),
    }
}

/// Whether target `i` of an outcome is the one that the index gives.
pub open spec fn is_right(o: SiteOutcome, i: int) -> bool {
    o.scip_target is Some && o.heuristic_targets@[i]@ == o.scip_target->0@
}

/// Whether target `i` of an outcome is another than the one that the index gives.
pub open spec fn is_wrong(o: SiteOutcome, i: int) -> bool {
    o.scip_target is Some && o.heuristic_targets@[i]@ != o.scip_target->0@
}

/// How many targets of an outcome are right.
pub open spec fn right_edges(o: SiteOutcome) -> nat {
    order::counted(|i: int| is_right(o, i), o.heuristic_targets@.len())
}

/// How many targets of an outcome are wrong.
pub open spec fn wrong_edges(o: SiteOutcome) -> nat {
    order::counted(|i: int| is_wrong(o, i), o.heuristic_targets@.len())
}

/// How many targets of those of the first `n` outcomes that are of a group are right, or wrong.
pub open spec fn all_edges(outcomes: Seq<SiteOutcome>, group: Group, right: bool, n: nat) -> nat
    decreases n,
{
    if n == 0 {
        0
    } else {
        all_edges(outcomes, group, right, (n - 1) as nat) + if is_of(outcomes[n - 1], group) {
            if right {
                right_edges(outcomes[n - 1])
            } else {
                wrong_edges(outcomes[n - 1])
            }
        } else {
            0
        }
    }
}

proof fn lemma_right(o: SiteOutcome, n: nat)
    requires
        n <= o.heuristic_targets@.len(),
        o.scip_target is Some,
    ensures
        accuracy::same_count(o.heuristic_targets@, o.scip_target->0@, n) == order::counted(|i: int| is_right(o, i), n),
        n - accuracy::same_count(o.heuristic_targets@, o.scip_target->0@, n) == order::counted(
            |i: int| is_wrong(o, i),
            n,
        ),
    decreases n,
{
    if n > 0 {
        lemma_right(o, (n - 1) as nat);
    }
}

proof fn lemma_edges(o: SiteOutcome)
    ensures
        accuracy::confirmed(o) == right_edges(o),
        accuracy::denied(o) == wrong_edges(o),
{
    let n = o.heuristic_targets@.len();
    if o.scip_target is Some {
        lemma_right(o, n);
    } else {
        order::lemma_counted(|i: int| is_right(o, i), n);
        order::lemma_counted(|i: int| is_wrong(o, i), n);
    }
}

/// What a tally counts: the outcomes of its group that the index covers, those of them with a right
/// target, those that it does not cover, and the right and the wrong targets.
pub proof fn law_tally(outcomes: Seq<SiteOutcome>, group: Group, n: nat)
    requires
        n <= outcomes.len(),
    ensures
        ({
            let t = accuracy::tally_upto(outcomes, group, n);
            &&& t.sites == order::counted(
                |i: int| is_of(outcomes[i], group) && outcomes[i].scip_target is Some,
                n,
            )
            &&& t.unadjudicable == order::counted(
                |i: int| is_of(outcomes[i], group) && outcomes[i].scip_target is None,
                n,
            )
            &&& t.hits == order::counted(
                |i: int| is_of(outcomes[i], group) && right_edges(outcomes[i]) > 0,
                n,
            )
            &&& t.tp == all_edges(outcomes, group, true, n)
            &&& t.fp == all_edges(outcomes, group, false, n)
        }),
    decreases n,
{
    if n > 0 {
        law_tally(outcomes, group, (n - 1) as nat);
        lemma_edges(outcomes[n - 1]);
        assert(accuracy::in_group(outcomes[n - 1], group) == is_of(outcomes[n - 1], group));
    }
}

// ----------------------------------------------------------------------------------------------
// Bands
// ----------------------------------------------------------------------------------------------

/// The band at a place of the report.
pub open spec fn band_at(i: int) -> Band {
    if i == 0 {
        Band::Resolved
    } else if i == 1 {
        Band::Extracted
    } else if i == 2 {
        Band::Inferred
    } else {
        Band::Ambiguous
    }
}

/// Whether band `j` is more precise than band `i`, the next higher one that has a precision.
pub open spec fn is_inverted(metrics: Seq<BandMetrics>, i: int, j: int) -> bool {
    &&& 0 <= i < j < 4
    &&& accuracy::band_precision(metrics, band_at(i)) is Some
    &&& accuracy::band_precision(metrics, band_at(j)) is Some
    &&& forall|k: int| i < k < j ==> accuracy::band_precision(metrics, #[trigger] band_at(k)) is None
    &&& accuracy::exceeds(
        accuracy::band_precision(metrics, band_at(j))->0,
        accuracy::band_precision(metrics, band_at(i))->0,
    )
}

proof fn lemma_inversion(metrics: Seq<BandMetrics>, at: int, from: int)
    requires
        -1 <= at < from,
        0 <= from <= 4,
        at >= 0 ==> accuracy::band_precision(metrics, band_at(at)) is Some,
        forall|k: int| at < k < from ==> accuracy::band_precision(metrics, #[trigger] band_at(k)) is None,
    ensures
        ({
            let prev = if at < 0 {
                None
            } else {
                Some((band_at(at), accuracy::band_precision(metrics, band_at(at))->0))
            };
            match accuracy::inversion_from(metrics, prev, from) {
                Some(t) => exists|i: int, j: int| #[trigger]
                    is_inverted(metrics, i, j) && from <= j && (forall|a: int, b: int|
                        from <= b < j ==> !#[trigger] is_inverted(metrics, a, b)) && t == accuracy::inversion_text(
                        band_at(j),
                        accuracy::band_precision(metrics, band_at(j))->0,
                        band_at(i),
                        accuracy::band_precision(metrics, band_at(i))->0,
                    ),
                None => forall|i: int, j: int| from <= j ==> !#[trigger] is_inverted(metrics, i, j),
            }
        }),
    decreases 4 - from,
{
    if from < 4 {
        assert(accuracy::ALL_BANDS@[from] == band_at(from));
        assert(at >= 0 ==> accuracy::ALL_BANDS@[at] == band_at(at));
        let p = accuracy::band_precision(metrics, band_at(from));
        assert forall|i: int| #[trigger] is_inverted(metrics, i, from) implies i == at by {
            if i < at {
                assert(accuracy::band_precision(metrics, band_at(at)) is None);
            }
            if at < i {
                assert(accuracy::band_precision(metrics, band_at(i)) is None);
            }
        }
        if p is None {
            lemma_inversion(metrics, at, from + 1);
        } else if at >= 0 && accuracy::exceeds(p->0, accuracy::band_precision(metrics, band_at(at))->0) {
            assert(is_inverted(metrics, at, from));
        } else {
            lemma_inversion(metrics, from, from + 1);
        }
    }
}

/// A report is found inverted exactly where a band is more precise than the next higher one that has a
/// precision, and the first such band is told.
pub proof fn law_inversion(metrics: Seq<BandMetrics>)
    ensures
        match accuracy::inversion_from(metrics, None, 0) {
            Some(t) => exists|i: int, j: int| #[trigger]
                is_inverted(metrics, i, j) && (forall|a: int, b: int|
                    b < j ==> !#[trigger] is_inverted(metrics, a, b)) && t == accuracy::inversion_text(
                    band_at(j),
                    accuracy::band_precision(metrics, band_at(j))->0,
                    band_at(i),
                    accuracy::band_precision(metrics, band_at(i))->0,
                ),
            None => forall|i: int, j: int| !#[trigger] is_inverted(metrics, i, j),
        },
{
    lemma_inversion(metrics, -1, 0);
    if let Some(t) = accuracy::inversion_from(metrics, None, 0) {
        let (i, j) = choose|i: int, j: int| #[trigger]
            is_inverted(metrics, i, j) && 0 <= j && (forall|a: int, b: int|
                0 <= b < j ==> !#[trigger] is_inverted(metrics, a, b)) && t == accuracy::inversion_text(
                band_at(j),
                accuracy::band_precision(metrics, band_at(j))->0,
                band_at(i),
                accuracy::band_precision(metrics, band_at(i))->0,
            );
        assert(is_inverted(metrics, i, j));
    }
}

/// A ratio is that of its counts, and one where there is nothing to count.
pub proof fn law_ratio(numer: usize, denom: usize)
    ensures
        ({
            let r = accuracy::ratio_of(numer as nat, denom as nat);
            &&& r.denom > 0
            &&& denom > 0 ==> r.numer * denom == numer * r.denom
            &&& denom == 0 ==> r.numer == r.denom
        }),
{
}

/// The widths of a character: in UTF-8 one byte for each of ASCII and up to four, in UTF-16 one unit for
/// each of the basic plane and two for any other.
pub proof fn law_widths(c: char)
    ensures
        scip_merge::utf8_width(c) == 1 <==> c as u32 <= 127,
        scip_merge::utf8_width(c) == 2 <==> 128 <= c as u32 <= 2047,
        scip_merge::utf8_width(c) == 3 <==> 2048 <= c as u32 <= 65535,
        scip_merge::utf8_width(c) == 4 <==> 65536 <= c as u32,
        scip_merge::utf16_width(c) == 1 <==> c as u32 <= 65535,
        scip_merge::utf16_width(c) == 2 <==> 65536 <= c as u32,
{
}
/// The value of a ratio exceeds that of another where it is greater by two billionths or more, and never
/// where it is no greater.
pub proof fn law_exceeds(p: Ratio, hi: Ratio)
    requires
        accuracy::proper(p),
        accuracy::proper(hi),
    ensures
        1_000_000_000 * (p.numer * hi.denom) >= 1_000_000_000 * (hi.numer * p.denom) + 2 * (p.denom * hi.denom)
            ==> accuracy::exceeds(p, hi),
        p.numer * hi.denom <= hi.numer * p.denom ==> !accuracy::exceeds(p, hi),
{
    if p.numer * hi.denom <= hi.numer * p.denom {
        binary::law_order_survives_rounding(p.numer as nat, p.denom as nat, hi.numer as nat, hi.denom as nat);
    }
    if 1_000_000_000 * (p.numer * hi.denom) >= 1_000_000_000 * (hi.numer * p.denom) + 2 * (p.denom * hi.denom) {
        binary::law_gap_survives_rounding(p.numer as nat, p.denom as nat, hi.numer as nat, hi.denom as nat);
    }
}

} // verus!
