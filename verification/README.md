# gomoku_ai

An N-in-a-row program that learns by playing against itself. The rules, the tree search, the
bookkeeping of training and matches, and the behaviour of the two terminal screens are a
library written in [Verus](https://github.com/verus-lang/verus): its functions carry contracts,
and the contracts are proved. Taken for granted are those of the few wrappers around outside
calls, in `src/grid.rs`, `src/random.rs` and `src/text.rs`.

## Layout

- `src/game`: the board, its symmetries, what the screens show and what keys do.
- `src/mcts`: Gumbel tree search. `search.rs` runs simulations step by step and asks for
  what it cannot compute; `node.rs`, `expand.rs`, `select.rs`, `value.rs` and `policy.rs` are
  its parts, and `laws.rs`, `answer.rs`, `halving_laws.rs` and `pace.rs` state what a search
  keeps.
- `src/selfplay.rs`, `src/eval.rs`, `src/training`: games of self-play, matches and ratings,
  the sample buffer, batches, schedules and the plan of an iteration.
- `src/inference.rs`: gathering requests into batches, and handing the answers out.
- `src/network`: the shapes and tables of the networks.
- `src/number.rs`: the numbers to calculate with, known by their operations alone.
- `src/grid.rs`, `src/random.rs`: the calls into `ndarray` and `rand`, with what is taken for
  granted about them.
- `tests`: the library at work on `f32` and `f64`.
- `app`: the command line, the terminal, threads, files, and the networks themselves.

## Numbers

The library knows no floating point. Searches, losses, ratings and rotary tables are calculated
through the traits `Score`, `Real` and `Curve`, which `app` and `tests` implement for `f32` and
`f64`. Contracts say which operations are applied to which numbers in which order; rounding is
not described. Where a law rests on arithmetic (a mean lies between its terms, probabilities
add up to 1, the learning rate falls), it is stated for numbers that are not rounded: see
`unrounded`. Configurations hold such numbers as well, and fixed fractions are made from
thousandths by `Real::milli`.
