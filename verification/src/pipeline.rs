//! What a run reports, and what its stages guarantee together.

use crate::ieee;
use crate::kmeans::CompressionResult;
use crate::matrix::Matrix;
use crate::preprocessing::{is_image_of, is_samples_of, narrowed, PixelGrid};
use crate::text::{append_decimal, decimal};
use crate::timing::Event;
use vstd::prelude::*;
use vstd::string::*;

verus! {

/// How one stage is reported: its label, `=`, its milliseconds and `ms`.
pub open spec fn stage_text(stage: (Seq<char>, u128)) -> Seq<char> {
    stage.0 + "="@ + decimal(stage.1 as nat) + "ms"@
}

/// The stages as they are reported, with one blank between two of them.
pub open spec fn stages_text(stages: Seq<(Seq<char>, u128)>) -> Seq<char>
    decreases stages.len(),
{
    if stages.len() == 0 {
        Seq::empty()
    } else if stages.len() == 1 {
        stage_text(stages[0])
    } else {
        stages_text(stages.drop_last()) + " "@ + stage_text(stages.last())
    }
}

/// The line that reports the stages and the total time of a run.
pub open spec fn report_text(stages: Seq<(Seq<char>, u128)>, total_ms: u128) -> Seq<char> {
    "[TIMING] "@ + stages_text(stages) + " total="@ + decimal(total_ms as nat) + "ms"@
}

/// The line that reports the stages and the total time of a run.
pub fn timing_report(events: &[Event], total_ms: u128) -> (line: String)
    ensures
        line@ == report_text(events@.map_values(|e: Event| e@), total_ms),
{
    let ghost stages = events@.map_values(|e: Event| e@);
    let mut line = String::from_str("[TIMING] ");
    let mut i: usize = 0;
    while i < events.len()
        invariant
            i <= events@.len(),
            stages == events@.map_values(|e: Event| e@),
            line@ == "[TIMING] "@ + stages_text(stages.take(i as int)),
        decreases events@.len() - i,
    {
        let ghost before = line@;
        if i > 0 {
            line.append(" ");
        }
        line.append(events[i].label.as_str());
        line.append("=");
        append_decimal(&mut line, events[i].milliseconds);
        line.append("ms");
        proof {
            let shorter = stages.take(i as int);
            let longer = stages.take(i + 1);
            assert(longer.drop_last() =~= shorter);
            assert(longer.last() == events@[i as int]@);
            if i == 0 {
                assert(stages_text(shorter) =~= Seq::<char>::empty());
                assert(line@ =~= "[TIMING] "@ + stages_text(longer));
            } else {
                assert(line@ =~= "[TIMING] "@ + stages_text(longer));
            }
        }
        i += 1;
    }
    proof {
        assert(stages.take(events@.len() as int) =~= stages);
    }
    line.append(" total=");
    append_decimal(&mut line, total_ms);
    line.append("ms");
    assert(line@ =~= report_text(stages, total_ms));
    line
}

/// Whether pixel `i` of `shown` has the color of one of the first
/// `clusters` rows of `centers`, narrowed.
pub open spec fn has_center_color(shown: &PixelGrid, centers: &Matrix, clusters: nat, i: int) -> bool {
    exists|c: int| 0 <= c < clusters && shown.pixel(i) == narrowed(#[trigger] centers.row(c))
}

/// A compressed image has no more colors than there are clusters: every
/// pixel of the grid that shows the compressed samples of a grid has the
/// color of one of the centers, narrowed.
pub proof fn lemma_palette(
    grid: &PixelGrid,
    samples: &Matrix,
    clusters: nat,
    result: &CompressionResult,
    shown: &PixelGrid,
)
    requires
        is_samples_of(samples, grid),
        result.is_consistent_for(samples, clusters),
        is_image_of(shown, &result.compressed_samples, grid.width(), grid.height()),
    ensures
        shown.raw().len() == 3 * (grid.width() * grid.height()),
        forall|i: int|
            0 <= i < grid.width() * grid.height() ==> #[trigger] has_center_color(
                shown,
                &result.centers,
                clusters,
                i,
            ),
{
    assert forall|i: int| 0 <= i < grid.width() * grid.height() implies #[trigger] has_center_color(
        shown,
        &result.centers,
        clusters,
        i,
    ) by {
        let c = result.labels@[i] as int;
        let compressed = result.compressed_samples.row(i);
        let center = result.centers.row(c);
        assert(compressed == center);
        assert forall|q: int| 0 <= q < 3 implies shown.pixel(i)[q] == narrowed(center)[q] by {
            assert(compressed[q] == result.compressed_samples.at(i, q));
            assert(shown.raw()[3 * i + q] == ieee::channel_of(
                result.compressed_samples.at(i, q),
            ));
        }
        assert(shown.pixel(i) =~= narrowed(center));
    }
}

} // verus!
