//! The shapes of the residual network.

use vstd::prelude::*;

verus! {

/// The edge length of the board.
pub const BOARD_SIZE: usize = 15;

/// The number of input planes.
pub const INPUT_CHANNELS: usize = 1;

/// The number of channels of the residual blocks.
pub const RES_CHANNELS: usize = 128;

/// The number of policy outputs: one for each cell.
pub const POLICY_OUT: usize = BOARD_SIZE * BOARD_SIZE;

/// The hyperparameters of the network.
#[derive(Debug, Clone, Copy)]
pub struct GomokuNetworkConfig {
    pub input_channels: usize,
    pub board_size: usize,
    pub num_res_blocks: usize,
    pub res_channels: usize,
}

impl Default for GomokuNetworkConfig {
    fn default() -> (config: GomokuNetworkConfig)
        ensures
            config.input_channels == INPUT_CHANNELS,
            config.board_size == BOARD_SIZE,
            config.num_res_blocks == 5,
            config.res_channels == RES_CHANNELS,
    {
        GomokuNetworkConfig {
            input_channels: INPUT_CHANNELS,
            board_size: BOARD_SIZE,
            num_res_blocks: 5,
            res_channels: RES_CHANNELS,
        }
    }
}

/// The input and output widths of the layers around the residual blocks.
pub struct HeadShape {
    pub conv_in: (usize, usize),
    pub policy_conv: (usize, usize),
    pub policy_fc: (usize, usize),
    pub value_conv: (usize, usize),
    pub value_fc1: (usize, usize),
    pub value_fc2: (usize, usize),
}

impl GomokuNetworkConfig {
    /// The widths of the layers around the residual blocks: the policy head reads two
    /// planes and the value head one.
    pub fn heads(&self) -> (shape: HeadShape)
        requires
            2 * (self.board_size * self.board_size) <= usize::MAX,
        ensures
            ({
                let cells = (self.board_size * self.board_size) as usize;
                &&& shape.conv_in == (self.input_channels, self.res_channels)
                &&& shape.policy_conv == (self.res_channels, 2usize)
                &&& shape.policy_fc == ((2 * cells) as usize, cells)
                &&& shape.value_conv == (self.res_channels, 1usize)
                &&& shape.value_fc1 == (cells, 64usize)
                &&& shape.value_fc2 == (64usize, 1usize)
                // Each layer takes what the one before gives.
                &&& shape.policy_conv.0 == shape.conv_in.1
                &&& shape.policy_fc.0 == shape.policy_conv.1 * (self.board_size * self.board_size)
                &&& shape.policy_fc.1 == self.board_size * self.board_size
                &&& shape.value_conv.0 == shape.conv_in.1
                &&& shape.value_fc1.0 == shape.value_conv.1 * (self.board_size * self.board_size)
                &&& shape.value_fc2.0 == shape.value_fc1.1
            }),
    {
        let cells: usize = self.board_size * self.board_size;
        HeadShape {
            conv_in: (self.input_channels, self.res_channels),
            policy_conv: (self.res_channels, 2),
            policy_fc: (2 * cells, cells),
            value_conv: (self.res_channels, 1),
            value_fc1: (cells, 64),
            value_fc2: (64, 1),
        }
    }
}

} // verus!
