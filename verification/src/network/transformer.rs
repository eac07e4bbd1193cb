//! The shapes of the transformer network.

use vstd::prelude::*;
use crate::game::board::Board;

verus! {

/// The number of token kinds: empty, own stone, opposing stone.
pub const NUM_TOKENS: usize = 3;

/// The number of policy outputs for a board: one for each cell.
pub fn policy_out_dim(board_size: usize) -> (n: usize)
    requires
        board_size * board_size <= usize::MAX,
    ensures
        n == board_size * board_size,
{
    board_size * board_size
}

/// The hyperparameters of the network.
#[derive(Debug, Clone, Copy)]
pub struct GomokuNetworkConfig {
    pub board_size: usize,
    pub d_model: usize,
    pub d_ff: usize,
    pub n_heads: usize,
    pub n_layers: usize,
}

impl Default for GomokuNetworkConfig {
    fn default() -> (config: GomokuNetworkConfig)
        ensures
            config.board_size == Board::DEFAULT_BOARD_SIZE,
            config.d_model == 128,
            config.d_ff == 512,
            config.n_heads == 4,
            config.n_layers == 4,
            config.fits(),
    {
        GomokuNetworkConfig {
            board_size: Board::DEFAULT_BOARD_SIZE,
            d_model: 128,
            d_ff: 512,
            n_heads: 4,
            n_layers: 4,
        }
    }
}

/// The input and output widths of the linear layers of one transformer block, and the
/// width of one attention head.
pub struct BlockShape {
    pub d_head: usize,
    pub qkv_proj: (usize, usize),
    pub out_proj: (usize, usize),
    pub ffn_w1: (usize, usize),
    pub ffn_w2: (usize, usize),
}

impl BlockShape {
    /// The shapes of a block with `n_heads` heads of equal width.
    pub fn new(d_model: usize, d_ff: usize, n_heads: usize) -> (shape: BlockShape)
        requires
            n_heads > 0,
            d_model % n_heads == 0,
            3 * d_model <= usize::MAX,
        ensures
            shape.d_head * n_heads == d_model,
            shape.qkv_proj == (d_model, (3 * d_model) as usize),
            shape.out_proj == (d_model, d_model),
            shape.ffn_w1 == (d_model, d_ff),
            shape.ffn_w2 == (d_ff, d_model),
            // Each layer takes what the one before gives, and the block keeps the width.
            shape.qkv_proj.1 == 3 * shape.out_proj.0,
            shape.ffn_w1.0 == shape.out_proj.1,
            shape.ffn_w2.0 == shape.ffn_w1.1,
            shape.ffn_w2.1 == shape.qkv_proj.0,
    {
        proof {
            vstd::arithmetic::div_mod::lemma_fundamental_div_mod(d_model as int, n_heads as int);
            assert(n_heads * (d_model / n_heads) == (d_model / n_heads) * n_heads)
                by (nonlinear_arith);
        }
        BlockShape {
            d_head: d_model / n_heads,
            qkv_proj: (d_model, 3 * d_model),
            out_proj: (d_model, d_model),
            ffn_w1: (d_model, d_ff),
            ffn_w2: (d_ff, d_model),
        }
    }
}

/// Where the queries, keys and values lie among the projected heads: the first head of
/// each and how many there are.
pub fn qkv_ranges(n_heads: usize) -> (ranges: ((usize, usize), (usize, usize), (usize, usize)))
    requires
        3 * n_heads <= usize::MAX,
    ensures
        ranges.0 == (0usize, n_heads),
        ranges.1 == (n_heads, n_heads),
        ranges.2 == ((2 * n_heads) as usize, n_heads),
        // The ranges follow each other.
        ranges.1.0 == ranges.0.0 + ranges.0.1,
        ranges.2.0 == ranges.1.0 + ranges.1.1,
        ranges.2.0 + ranges.2.1 == 3 * n_heads,
{
    ((0, n_heads), (n_heads, n_heads), (2 * n_heads, n_heads))
}

/// Splitting the projected queries, keys and values into heads keeps the number of entries.
pub proof fn law_head_split_keeps_entries(batch: nat, seq_len: nat, n_heads: nat, d_head: nat)
    ensures
        batch * seq_len * (3 * n_heads) * d_head == batch * seq_len * (3 * (d_head * n_heads)),
{
    let x = batch * seq_len;
    assert(x * (3 * n_heads) * d_head == x * (3 * (d_head * n_heads))) by (nonlinear_arith);
}

impl GomokuNetworkConfig {
    /// A network can be built: the heads have equal width, and that width has four quarters.
    pub open spec fn fits(self) -> bool {
        &&& self.n_heads > 0
        &&& self.d_model % self.n_heads == 0
        &&& self.d_model / self.n_heads >= 4
        &&& (self.d_model / self.n_heads) % 4 == 0
    }

    /// Whether a network with these hyperparameters can be built.
    pub fn buildable(&self) -> (ok: bool)
        ensures
            ok == self.fits(),
    {
        self.n_heads > 0 && self.d_model % self.n_heads == 0 && self.d_model / self.n_heads >= 4 && (
        self.d_model / self.n_heads) % 4 == 0
    }

    /// The width of one attention head.
    pub fn d_head(&self) -> (d: usize)
        requires
            self.n_heads > 0,
        ensures
            d == self.d_model as int / self.n_heads as int,
    {
        self.d_model / self.n_heads
    }
}

} // verus!
