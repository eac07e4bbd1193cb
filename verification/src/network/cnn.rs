//! The shapes of the convolutional network.

use vstd::prelude::*;
use crate::number::{exact, v_milli, Real};

verus! {

/// The hyperparameters of the network.
#[derive(Debug, Clone, Copy)]
pub struct GomokuCNNConfig<V> {
    pub board_size: usize,
    pub num_input_channels: usize,
    pub num_hidden_channels: usize,
    pub num_blocks: usize,
    pub num_value_hidden_channels: usize,
    /// The dropout rate.
    pub dropout: V,
}

impl<V: Real> Default for GomokuCNNConfig<V> {
    fn default() -> (config: GomokuCNNConfig<V>)
        ensures
            config.board_size == 8,
            config.num_input_channels == 3,
            config.num_hidden_channels == 64,
            config.num_blocks == 4,
            config.num_value_hidden_channels == 64,
            exact::<V>() ==> config.dropout == v_milli::<V>(100),
    {
        GomokuCNNConfig {
            board_size: 8,
            num_input_channels: 3,
            num_hidden_channels: 64,
            num_blocks: 4,
            num_value_hidden_channels: 64,
            dropout: V::milli(100),
        }
    }
}

/// The input and output widths of the layers around the residual blocks.
pub struct HeadShape {
    pub conv: (usize, usize),
    pub policy_conv: (usize, usize),
    pub policy_fc: (usize, usize),
    pub value_conv: (usize, usize),
    pub value_fc1: (usize, usize),
    pub value_fc2: (usize, usize),
}

impl<V> GomokuCNNConfig<V> {
    /// The widths of the layers around the residual blocks: both heads read one plane.
    pub fn heads(&self) -> (shape: HeadShape)
        requires
            self.board_size * self.board_size <= usize::MAX,
        ensures
            ({
                let cells = (self.board_size * self.board_size) as usize;
                &&& shape.conv == (self.num_input_channels, self.num_hidden_channels)
                &&& shape.policy_conv == (self.num_hidden_channels, 1usize)
                &&& shape.policy_fc == (cells, cells)
                &&& shape.value_conv == (self.num_hidden_channels, 1usize)
                &&& shape.value_fc1 == (cells, self.num_value_hidden_channels)
                &&& shape.value_fc2 == (self.num_value_hidden_channels, 1usize)
                // Each layer takes what the one before gives.
                &&& shape.policy_conv.0 == shape.conv.1
                &&& shape.policy_fc.0 == shape.policy_conv.1 * (self.board_size * self.board_size)
                &&& shape.policy_fc.1 == self.board_size * self.board_size
                &&& shape.value_conv.0 == shape.conv.1
                &&& shape.value_fc1.0 == shape.value_conv.1 * (self.board_size * self.board_size)
                &&& shape.value_fc2.0 == shape.value_fc1.1
            }),
    {
        let cells: usize = self.board_size * self.board_size;
        HeadShape {
            conv: (self.num_input_channels, self.num_hidden_channels),
            policy_conv: (self.num_hidden_channels, 1),
            policy_fc: (cells, cells),
            value_conv: (self.num_hidden_channels, 1),
            value_fc1: (cells, self.num_value_hidden_channels),
            value_fc2: (self.num_value_hidden_channels, 1),
        }
    }
}

} // verus!
