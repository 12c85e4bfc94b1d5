//! What the cost of an access is estimated from.
use vstd::prelude::*;

verus! {

#[derive(Clone, Copy, Debug, PartialEq, Eq, Structural)]
pub struct CostFeatures {
    pub selected_rows: usize,
    pub decoded_rows: usize,
    pub delivered_bytes: usize,
    pub transfer_operations: usize,
    pub frames_decoded: usize,
    pub restart_entries: usize,
    pub rle_runs: usize,
    pub dictionary_entries: usize,
    pub patch_count: usize,
    pub nullable_nodes: usize,
}

impl CostFeatures {
    /// The features in the order in which they are weighed.
    pub fn values(self) -> (r: [usize; 10])
        ensures
            r@ == seq![
                self.selected_rows,
                self.decoded_rows,
                self.delivered_bytes,
                self.transfer_operations,
                self.frames_decoded,
                self.restart_entries,
                self.rle_runs,
                self.dictionary_entries,
                self.patch_count,
                self.nullable_nodes,
            ],
    {
        let r = [
            self.selected_rows,
            self.decoded_rows,
            self.delivered_bytes,
            self.transfer_operations,
            self.frames_decoded,
            self.restart_entries,
            self.rle_runs,
            self.dictionary_entries,
            self.patch_count,
            self.nullable_nodes,
        ];
        assert(r@ =~= seq![
            self.selected_rows,
            self.decoded_rows,
            self.delivered_bytes,
            self.transfer_operations,
            self.frames_decoded,
            self.restart_entries,
            self.rle_runs,
            self.dictionary_entries,
            self.patch_count,
            self.nullable_nodes,
        ]);
        r
    }
}

} // verus!
