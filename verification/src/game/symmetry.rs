//! The eight symmetries of the square board, used to multiply training samples.

use rand::rngs::StdRng;
use vstd::prelude::*;
use crate::game::board::{lemma_index_in_grid, BoardState};
use crate::game::laws::law_index_round_trip;
use crate::game::lines::{along, has_line, holds, run};
use crate::grid::has_shape;
use crate::random::draw_below;

verus! {

/// Where symmetry `t` of the `size` by `size` board takes the cell (`row`, `col`). In
/// order: identity, rotations by 90, 180 and 270 degrees, horizontal and vertical flip,
/// flips at the main and at the secondary diagonal.
pub open spec fn turned(size: int, t: int, row: int, col: int) -> (int, int) {
    let last = size - 1;
    if t == 0 {
        (row, col)
    } else if t == 1 {
        (col, last - row)
    } else if t == 2 {
        (last - row, last - col)
    } else if t == 3 {
        (last - col, row)
    } else if t == 4 {
        (row, last - col)
    } else if t == 5 {
        (last - row, col)
    } else if t == 6 {
        (col, row)
    } else {
        (last - col, last - row)
    }
}

/// Where symmetry `t` takes the cell with index `i`.
pub open spec fn target(size: int, t: int, i: int) -> int {
    let p = turned(size, t, i / size, i % size);
    p.0 * size + p.1
}

/// The symmetry that takes back symmetry `t`.
pub open spec fn inverse(t: int) -> int {
    if t == 1 {
        3
    } else if t == 3 {
        1
    } else {
        t
    }
}

/// Whether symmetry `t` exchanges rows and columns, and whether it then reverses the rows
/// and the columns.
pub open spec fn parts(t: int) -> (bool, bool, bool) {
    (
        t == 1 || t == 3 || t == 6 || t == 7,
        t == 2 || t == 3 || t == 5 || t == 7,
        t == 1 || t == 2 || t == 4 || t == 7,
    )
}

/// The symmetry with the given parts.
pub open spec fn assembled(p: (bool, bool, bool)) -> int {
    if p.0 {
        if p.1 {
            if p.2 {
                7
            } else {
                3
            }
        } else {
            if p.2 {
                1
            } else {
                6
            }
        }
    } else {
        if p.1 {
            if p.2 {
                2
            } else {
                5
            }
        } else {
            if p.2 {
                4
            } else {
                0
            }
        }
    }
}

/// The symmetry that does first `t` and then `u`.
pub open spec fn composed(t: int, u: int) -> int {
    let a = parts(t);
    let b = parts(u);
    assembled(
        (
            a.0 != b.0,
            b.1 != (if b.0 {
                a.2
            } else {
                a.1
            }),
            b.2 != (if b.0 {
                a.1
            } else {
                a.2
            }),
        ),
    )
}

/// The first `size * size` entries of `s`, one for each cell, moved by symmetry `t`.
pub open spec fn moved<T>(s: Seq<T>, size: int, t: int) -> Seq<T> {
    Seq::new((size * size) as nat, |j: int| s[target(size, inverse(t), j)])
}

/// The rows of the grid moved by symmetry `t`.
pub open spec fn turned_rows(rows: Seq<Seq<u8>>, size: int, t: int) -> Seq<Seq<u8>> {
    Seq::new(
        size as nat,
        |r: int|
            Seq::new(
                size as nat,
                |c: int|
                    {
                        let p = turned(size, inverse(t), r, c);
                        rows[p.0][p.1]
                    },
            ),
    )
}

/// A symmetry keeps cells on the board, and its inverse takes them back.
pub proof fn law_symmetry_is_reversible(size: int, t: int, i: int)
    requires
        0 <= t < 8,
        0 <= i < size * size,
        size >= 1,
    ensures
        0 <= inverse(t) < 8,
        inverse(inverse(t)) == t,
        0 <= target(size, t, i) < size * size,
        target(size, inverse(t), target(size, t, i)) == i,
{
    law_index_round_trip(size, 0, 0, i);
    let p = turned(size, t, i / size, i % size);
    lemma_index_in_grid(size, p.0, p.1);
}

/// Doing one symmetry after another is again one of the eight symmetries.
pub proof fn law_symmetries_compose(size: int, t: int, u: int, row: int, col: int)
    requires
        0 <= t < 8,
        0 <= u < 8,
    ensures
        0 <= composed(t, u) < 8,
        ({
            let p = turned(size, t, row, col);
            turned(size, u, p.0, p.1) == turned(size, composed(t, u), row, col)
        }),
        composed(t, inverse(t)) == 0,
        composed(0, t) == t,
        composed(t, 0) == t,
{
}

/// The symmetries keep distances: two cells are as many rows and columns apart as their images
/// are columns and rows, or rows and columns.
pub proof fn law_symmetry_keeps_distances(size: int, t: int, p: (int, int), q: (int, int))
    requires
        0 <= t < 8,
    ensures
        ({
            let a = turned(size, t, p.0, p.1);
            let b = turned(size, t, q.0, q.1);
            let rows = a.0 - b.0;
            let cols = a.1 - b.1;
            ||| (rows == p.0 - q.0 || rows == q.0 - p.0) && (cols == p.1 - q.1 || cols == q.1 - p.1)
            ||| (rows == p.1 - q.1 || rows == q.1 - p.1) && (cols == p.0 - q.0 || cols == q.0 - p.0)
        }),
{
}

/// The symmetries all differ: no two take the first two cells to the same places.
pub proof fn law_symmetries_differ(size: int, t: int, u: int)
    requires
        size >= 2,
        0 <= t < u < 8,
    ensures
        turned(size, t, 0, 0) != turned(size, u, 0, 0) || turned(size, t, 0, 1) != turned(
            size,
            u,
            0,
            1,
        ),
{
}

/// The first four symmetries are turns: a quarter turn takes the first row to the last column,
/// and done twice and three times it gives the next two, and done four times nothing.
pub proof fn law_turns(size: int, col: int)
    ensures
        turned(size, 1, 0, col) == (col, size - 1),
        composed(1, 1) == 2,
        composed(2, 1) == 3,
        composed(3, 1) == 0,
{
}

/// The last four symmetries are flips: done twice, each gives back every cell, and each leaves
/// the cells of its axis where they are.
pub proof fn law_flips(size: int, k: int)
    ensures
        forall|t: int| 4 <= t < 8 ==> #[trigger] composed(t, t) == 0,
        2 * k == size - 1 ==> forall|r: int| #[trigger] turned(size, 4, r, k) == (r, k),
        2 * k == size - 1 ==> forall|c: int| #[trigger] turned(size, 5, k, c) == (k, c),
        turned(size, 6, k, k) == (k, k),
        turned(size, 7, k, size - 1 - k) == (k, size - 1 - k),
{
}

/// Moving by a symmetry and then by its inverse gives back the values, and the identity
/// moves nothing.
pub proof fn law_moving_is_reversible<T>(s: Seq<T>, size: int, t: int)
    requires
        0 <= t < 8,
        size >= 1,
        s.len() == size * size,
    ensures
        moved(moved(s, size, t), size, inverse(t)) == s,
        moved(s, size, 0) == s,
{
    assert forall|j: int| 0 <= j < size * size implies {
        &&& #[trigger] moved(moved(s, size, t), size, inverse(t))[j] == s[j]
        &&& moved(s, size, 0)[j] == s[j]
    } by {
        law_symmetry_is_reversible(size, t, j);
        law_symmetry_is_reversible(size, 0, j);
        law_index_round_trip(size, 0, 0, j);
    }
    assert forall|j: int| 0 <= j < size * size implies #[trigger] moved(s, size, 0)[j] == s[j] by {
        law_index_round_trip(size, 0, 0, j);
    }
    assert(moved(moved(s, size, t), size, inverse(t)) =~= s);
    assert(moved(s, size, 0) =~= s);
}

proof fn lemma_line_turns(rows: Seq<Seq<u8>>, size: int, t: int, stone: u8, len: int)
    requires
        0 <= t < 8,
        len >= 1,
        has_shape(rows, size, size),
        has_line(rows, size, stone, len),
    ensures
        has_line(turned_rows(rows, size, t), size, stone, len),
{
    let (r, c, dir) = choose|r: int, c: int, dir: int|
        0 <= dir < 4 && #[trigger] run(rows, size, stone, r, c, dir, len);
    let there = turned_rows(rows, size, t);
    let first = turned(size, t, r, c);
    let second = {
        let p = along(r, c, dir, 1);
        turned(size, t, p.0, p.1)
    };
    let (dr, dc) = (second.0 - first.0, second.1 - first.1);
    // The image runs in one of the four directions, from its first or from its last cell.
    let reversed = dr < 0 || (dr == 0 && dc < 0);
    let (er, ec) = if reversed {
        (-dr, -dc)
    } else {
        (dr, dc)
    };
    let e: int = if er == 0 {
        0
    } else if ec == 0 {
        1
    } else if ec == 1 {
        2
    } else {
        3
    };
    let end = along(r, c, dir, len - 1);
    let start = if reversed {
        turned(size, t, end.0, end.1)
    } else {
        first
    };
    assert forall|i: int| 0 <= i < len implies holds(
        there,
        size,
        stone,
        #[trigger] along(start.0, start.1, e, i),
    ) by {
        let k = if reversed {
            len - 1 - i
        } else {
            i
        };
        let p = along(r, c, dir, k);
        assert(holds(rows, size, stone, p));
        let q = turned(size, t, p.0, p.1);
        assert(along(start.0, start.1, e, i) == q);
        assert(turned(size, inverse(t), q.0, q.1) == p);
        assert(there[q.0][q.1] == rows[p.0][p.1]);
    }
    assert(run(there, size, stone, start.0, start.1, e, len));
}

/// The game does not change under the symmetries: a grid holds a line of a stone exactly
/// when the moved grid does.
pub proof fn law_symmetry_keeps_lines(rows: Seq<Seq<u8>>, size: int, t: int, stone: u8, len: int)
    requires
        0 <= t < 8,
        len >= 1,
        size >= 1,
        has_shape(rows, size, size),
    ensures
        has_line(turned_rows(rows, size, t), size, stone, len) <==> has_line(rows, size, stone, len),
{
    let there = turned_rows(rows, size, t);
    assert(has_shape(there, size, size));
    if has_line(rows, size, stone, len) {
        lemma_line_turns(rows, size, t, stone, len);
    }
    if has_line(there, size, stone, len) {
        lemma_line_turns(there, size, inverse(t), stone, len);
        let back = turned_rows(there, size, inverse(t));
        assert forall|r: int| 0 <= r < size implies #[trigger] back[r] == rows[r] by {
            assert(back[r] =~= rows[r]);
        }
        assert(back =~= rows);
    }
}

/// Moving an encoding is encoding the moved board.
pub proof fn law_encoding_moves(state: BoardState, t: int)
    requires
        0 <= t < 8,
        state.shaped(),
    ensures
        (BoardState { rows: turned_rows(state.rows, state.size, t), ..state }).encoding() == moved(
            state.encoding(),
            state.size,
            t,
        ),
{
    let size = state.size;
    let there = BoardState { rows: turned_rows(state.rows, size, t), ..state };
    assert forall|j: int| 0 <= j < size * size implies #[trigger] there.encoding()[j] == moved(
        state.encoding(),
        size,
        t,
    )[j] by {
        law_index_round_trip(size, 0, 0, j);
        law_symmetry_is_reversible(size, inverse(t), j);
        let p = turned(size, inverse(t), j / size, j % size);
        lemma_index_in_grid(size, p.0, p.1);
    }
    assert(there.encoding() =~= moved(state.encoding(), size, t));
}

/// The eight symmetries of a board, with the image of every cell computed once.
pub struct D4Symmetry {
    board_size: usize,
    maps: Vec<Vec<usize>>,
}

impl D4Symmetry {
    /// The number of symmetries.
    pub const COUNT: usize = 8;

    /// The edge length of the board.
    pub closed spec fn size(&self) -> int {
        self.board_size as int
    }

    /// The stored images are those of the symmetries.
    pub closed spec fn wf(&self) -> bool {
        &&& self.board_size >= 1
        &&& self.board_size * self.board_size <= usize::MAX
        &&& self.maps@.len() == 8
        &&& forall|t: int|
            0 <= t < 8 ==> (#[trigger] self.maps@[t])@.len() == self.board_size * self.board_size
        &&& forall|t: int, i: int|
            0 <= t < 8 && 0 <= i < self.board_size * self.board_size
                ==> #[trigger] self.maps@[t]@[i] == target(self.board_size as int, t, i)
    }

    /// Computes the images of all cells of a board with `board_size` rows and columns.
    pub fn new(board_size: usize) -> (symmetry: D4Symmetry)
        requires
            board_size >= 1,
            board_size * board_size <= usize::MAX,
        ensures
            symmetry.wf(),
            symmetry.size() == board_size,
    {
        let mut maps: Vec<Vec<usize>> = Vec::with_capacity(Self::COUNT);
        let mut t: usize = 0;
        while t < 8
            invariant
                board_size >= 1,
                board_size * board_size <= usize::MAX,
                t <= 8,
                maps@.len() == t,
                forall|u: int|
                    0 <= u < t ==> (#[trigger] maps@[u])@.len() == board_size * board_size,
                forall|u: int, i: int|
                    0 <= u < t && 0 <= i < board_size * board_size ==> #[trigger] maps@[u]@[i]
                        == target(board_size as int, u, i),
            decreases 8 - t,
        {
            let map = Self::images(board_size, t);
            maps.push(map);
            t = t + 1;
        }
        D4Symmetry { board_size, maps }
    }

    /// The image of every cell under symmetry `t`.
    fn images(board_size: usize, t: usize) -> (map: Vec<usize>)
        requires
            board_size >= 1,
            board_size * board_size <= usize::MAX,
            t < 8,
        ensures
            map@.len() == board_size * board_size,
            forall|i: int|
                0 <= i < board_size * board_size ==> #[trigger] map@[i] == target(
                    board_size as int,
                    t as int,
                    i,
                ),
    {
        let last: usize = board_size - 1;
        let mut map: Vec<usize> = Vec::with_capacity(board_size * board_size);
        let ghost size = board_size as int;
        assert(0 * size == 0);
        for r in 0..board_size
            invariant
                size == board_size,
                size >= 1,
                size * size <= usize::MAX,
                last == size - 1,
                t < 8,
                map@.len() == r * size,
                forall|i: int| 0 <= i < map@.len() ==> #[trigger] map@[i] == target(size, t as int, i),
        {
            for c in 0..board_size
                invariant
                    size == board_size,
                    size >= 1,
                    size * size <= usize::MAX,
                    last == size - 1,
                    t < 8,
                    0 <= r < size,
                    map@.len() == r * size + c,
                    forall|i: int|
                        0 <= i < map@.len() ==> #[trigger] map@[i] == target(size, t as int, i),
            {
                let (tr, tc): (usize, usize) = if t == 0 {
                    (r, c)
                } else if t == 1 {
                    (c, last - r)
                } else if t == 2 {
                    (last - r, last - c)
                } else if t == 3 {
                    (last - c, r)
                } else if t == 4 {
                    (r, last - c)
                } else if t == 5 {
                    (last - r, c)
                } else if t == 6 {
                    (c, r)
                } else {
                    (last - c, last - r)
                };
                proof {
                    lemma_index_in_grid(size, r as int, c as int);
                    lemma_index_in_grid(size, tr as int, tc as int);
                }
                map.push(tr * board_size + tc);
            }
            assert((r + 1) * size == r * size + size) by (nonlinear_arith);
        }
        map
    }

    /// Moves an encoded position and the policy that belongs to it by symmetry
    /// `transform_idx`. Entries of `state` beyond the cells become 0.
    pub fn apply_transform<P: Copy>(
        &self,
        state: &[i32],
        policy: &[P],
        transform_idx: usize,
    ) -> (result: (Vec<i32>, Vec<P>))
        requires
            self.wf(),
            transform_idx < 8,
            state@.len() >= self.size() * self.size(),
            policy@.len() >= self.size() * self.size(),
        ensures
            result.0@ == moved(state@, self.size(), transform_idx as int) + Seq::new(
                (state@.len() - self.size() * self.size()) as nat,
                |i: int| 0i32,
            ),
            result.1@ == moved(policy@, self.size(), transform_idx as int),
    {
        let npos: usize = self.board_size * self.board_size;
        let ghost size = self.size();
        let ghost t = transform_idx as int;
        assert(npos >= 1) by (nonlinear_arith)
            requires
                npos == self.board_size * self.board_size,
                self.board_size >= 1,
        ;
        let map = &self.maps[transform_idx];
        let mut new_state: Vec<i32> = vec![0i32; state.len()];
        let mut new_policy: Vec<P> = vec![policy[0]; npos];
        for src in 0..npos
            invariant
                self.wf(),
                size == self.size(),
                0 <= t < 8,
                npos == size * size,
                map@ == self.maps@[t]@,
                state@.len() >= npos,
                policy@.len() >= npos,
                new_state@.len() == state@.len(),
                new_policy@.len() == npos,
                forall|i: int|
                    0 <= i < src ==> new_state@[#[trigger] target(size, t, i)] == state@[i],
                forall|i: int|
                    0 <= i < src ==> new_policy@[#[trigger] target(size, t, i)] == policy@[i],
                forall|j: int| npos <= j < new_state@.len() ==> #[trigger] new_state@[j] == 0,
        {
            proof {
                assert forall|i: int| 0 <= i < npos implies {
                    let at = #[trigger] target(size, t, i);
                    0 <= at < npos && (at == target(size, t, src as int) ==> i == src)
                } by {
                    law_symmetry_is_reversible(size, t, i);
                    law_symmetry_is_reversible(size, t, src as int);
                }
                assert(map@[src as int] == target(size, t, src as int));
            }
            let at: usize = map[src];
            new_state.set(at, state[src]);
            new_policy.set(at, policy[src]);
        }
        proof {
            assert forall|j: int|
                #![trigger new_state@[j]]
                #![trigger new_policy@[j]]
                0 <= j < npos implies {
                &&& new_state@[j] == moved(state@, size, t)[j]
                &&& new_policy@[j] == moved(policy@, size, t)[j]
            } by {
                law_symmetry_is_reversible(size, inverse(t), j);
                law_symmetry_is_reversible(size, t, j);
                let i = target(size, inverse(t), j);
                assert(target(size, t, i) == j);
            }
            assert(new_policy@ =~= moved(policy@, size, t));
            assert(new_state@ =~= moved(state@, size, t) + Seq::new(
                (state@.len() - size * size) as nat,
                |i: int| 0i32,
            ));
        }
        (new_state, new_policy)
    }

    /// Augments a sample: by the identity when `keep` holds, and otherwise by the proper
    /// symmetry that `draw` selects.
    pub fn augment<P: Copy>(
        &self,
        state: &[i32],
        policy: &[P],
        keep: bool,
        draw: usize,
    ) -> (result: (Vec<i32>, Vec<P>))
        requires
            self.wf(),
            draw < 7,
            state@.len() >= self.size() * self.size(),
            policy@.len() >= self.size() * self.size(),
        ensures
            ({
                let t = if keep {
                    0int
                } else {
                    1 + draw
                };
                &&& result.0@ == moved(state@, self.size(), t) + Seq::new(
                    (state@.len() - self.size() * self.size()) as nat,
                    |i: int| 0i32,
                )
                &&& result.1@ == moved(policy@, self.size(), t)
            }),
    {
        let idx: usize = if keep {
            0
        } else {
            1 + draw
        };
        self.apply_transform(state, policy, idx)
    }

    /// Augments a sample: by the identity when `keep` holds, and otherwise by one of the
    /// seven proper symmetries, drawn from `rng`.
    pub fn random_augment<P: Copy>(
        &self,
        state: &[i32],
        policy: &[P],
        rng: &mut StdRng,
        keep: bool,
    ) -> (result: (Vec<i32>, Vec<P>))
        requires
            self.wf(),
            state@.len() >= self.size() * self.size(),
            policy@.len() >= self.size() * self.size(),
        ensures
            exists|t: int|
                {
                    &&& if keep {
                        t == 0
                    } else {
                        1 <= t < 8
                    }
                    &&& result.1@ == #[trigger] moved(policy@, self.size(), t)
                    &&& result.0@ == moved(state@, self.size(), t) + Seq::new(
                        (state@.len() - self.size() * self.size()) as nat,
                        |i: int| 0i32,
                    )
                },
    {
        let draw: usize = if keep {
            0
        } else {
            draw_below(rng, 7) as usize
        };
        let result = self.augment(state, policy, keep, draw);
        proof {
            let t = if keep {
                0int
            } else {
                1 + draw
            };
            assert(result.1@ == moved(policy@, self.size(), t));
        }
        result
    }
}

} // verus!
