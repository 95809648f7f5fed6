use vstd::prelude::*;
use crate::drawing::DrawingPixel;
use crate::search::{
    assignment_of, drawing_assignments, is_permutation, sources_form_grid,
    lemma_grid_assignments_are_permutation,
};

verus! {

/// A report from a running computation to whoever displays it.
pub enum ProgressMsg {
    /// For each target slot, the number of the source cell now assigned to it.
    UpdateAssignments(Vec<usize>),
    /// The computation stopped because a newer one replaced it.
    Cancelled,
    /// The computation failed.
    Error(String),
}

/// Somewhere progress reports can be sent.
pub trait ProgressSink {
    fn send(&mut self, msg: ProgressMsg);
}

/// The assignments carried by an `UpdateAssignments` report match the pixels.
pub open spec fn reports_assignments(msg: ProgressMsg, pixels: Seq<DrawingPixel>, sidelen: int) -> bool {
    match msg {
        ProgressMsg::UpdateAssignments(a) => {
            &&& a@.len() == pixels.len()
            &&& forall|i: int| 0 <= i < pixels.len() ==> #[trigger] a@[i] == assignment_of(pixels[i], sidelen)
        },
        _ => false,
    }
}

/// A report of the assignments of pixels whose sources cover the grid once
/// each names every cell exactly once.
pub proof fn lemma_reported_assignments_are_permutation(msg: ProgressMsg, pixels: Seq<DrawingPixel>, sidelen: int)
    requires
        sources_form_grid(pixels, sidelen),
        reports_assignments(msg, pixels, sidelen),
    ensures
        msg matches ProgressMsg::UpdateAssignments(a) && is_permutation(a@.map_values(|v: usize| v as int)),
{
    if let ProgressMsg::UpdateAssignments(a) = msg {
        lemma_grid_assignments_are_permutation(pixels, sidelen);
        assert(a@.map_values(|v: usize| v as int) =~= pixels.map_values(|p: DrawingPixel| assignment_of(p, sidelen)));
    }
}

/// What the drawing search does after a generation: report the new
/// assignments when the generation made an exchange, then stop with
/// `Cancelled` when its id is no longer the current one. Returns the reports
/// to send, in order, and whether the search goes on.
pub fn after_generation(
    pixels: &[DrawingPixel],
    sidelen: u32,
    swaps_made: usize,
    my_id: u32,
    current_id: u32,
) -> (res: (Vec<ProgressMsg>, bool))
    requires
        forall|i: int|
            0 <= i < pixels@.len() ==> assignment_of(#[trigger] pixels@[i], sidelen as int) <= usize::MAX,
    ensures
        res.1 == (my_id == current_id),
        res.0@.len() == (if swaps_made > 0 { 1int } else { 0 }) + (if my_id != current_id { 1int } else { 0 }),
        swaps_made > 0 ==> reports_assignments(res.0@[0], pixels@, sidelen as int),
        my_id != current_id ==> res.0@[res.0@.len() - 1] is Cancelled,
{
    let mut msgs: Vec<ProgressMsg> = Vec::new();
    if swaps_made > 0 {
        let assignments = drawing_assignments(pixels, sidelen);
        msgs.push(ProgressMsg::UpdateAssignments(assignments));
    }
    if my_id != current_id {
        msgs.push(ProgressMsg::Cancelled);
        return (msgs, false);
    }
    (msgs, true)
}

} // verus!
