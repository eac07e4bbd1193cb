//! Learned position embeddings, one table for rows and one for columns.

use vstd::prelude::*;

verus! {

/// The size of the two embedding tables.
#[derive(Debug, Clone, Copy)]
pub struct Pos2DEmbedConfig {
    /// The largest board the tables serve.
    pub max_board_size: usize,
    /// The length of an embedding.
    pub d_model: usize,
}

impl Pos2DEmbedConfig {
    /// Tables for boards up to `max_board_size` with embeddings of length `d_model`.
    pub fn new(max_board_size: usize, d_model: usize) -> (config: Pos2DEmbedConfig)
        ensures
            config.max_board_size == max_board_size,
            config.d_model == d_model,
    {
        Pos2DEmbedConfig { max_board_size, d_model }
    }

    /// The shapes that turn the first `h` row embeddings and the first `w` column
    /// embeddings into one embedding for each cell: the rows, the columns, and their sum
    /// for a batch of any size.
    pub fn sum_shapes(&self, h: usize, w: usize) -> (shapes: ([usize; 3], [usize; 3], [usize; 3]))
        requires
            h <= self.max_board_size,
            w <= self.max_board_size,
            h * w <= usize::MAX,
        ensures
            shapes.0@ == seq![h, 1usize, self.d_model],
            shapes.1@ == seq![1usize, w, self.d_model],
            shapes.2@ == seq![1usize, (h * w) as usize, self.d_model],
    {
        let rows: [usize; 3] = [h, 1, self.d_model];
        let cols: [usize; 3] = [1, w, self.d_model];
        let both: [usize; 3] = [1, h * w, self.d_model];
        assert(rows@ =~= seq![h, 1usize, self.d_model]);
        assert(cols@ =~= seq![1usize, w, self.d_model]);
        assert(both@ =~= seq![1usize, (h * w) as usize, self.d_model]);
        (rows, cols, both)
    }
}

} // verus!
