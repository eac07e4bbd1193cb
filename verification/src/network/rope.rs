//! Rotary position encoding on the board: how the angles of rows and columns are laid out
//! over the entries of an attention head.

use vstd::prelude::*;
use vstd::arithmetic::div_mod::{
    lemma_fundamental_div_mod, lemma_fundamental_div_mod_converse, lemma_mod_bound,
};
use crate::game::laws::law_index_round_trip;
use crate::number::{
    exact_curve, v_cos, v_count, v_negated, v_over, v_raised, v_sin, v_times, Curve,
};

verus! {

/// The entry of the base table that entry `k` of the full table copies. The full table has
/// `d_head` entries for each cell of the board. They form four quarters: the first two go
/// by the row of the cell and the last two by its column.
pub open spec fn source(board_size: int, d_head: int, k: int) -> int {
    let cell = k / d_head;
    let quarter = d_head / 4;
    let part = (k % d_head) / quarter;
    let line = if part < 2 {
        cell / board_size
    } else {
        cell % board_size
    };
    line * quarter + (k % d_head) % quarter
}

/// The quarter of its head in which entry `k` of the full table lies.
pub open spec fn part(d_head: int, k: int) -> int {
    (k % d_head) / (d_head / 4)
}

/// A table with `d_head` entries for each cell: the first and third quarter of a head copy
/// from `even`, the second and fourth from `odd`.
pub open spec fn spread_table<T>(even: Seq<T>, odd: Seq<T>, board_size: int, d_head: int) -> Seq<T> {
    Seq::new(
        (board_size * board_size * d_head) as nat,
        |k: int|
            if part(d_head, k) % 2 == 0 {
                even[source(board_size, d_head, k)]
            } else {
                odd[source(board_size, d_head, k)]
            },
    )
}

/// Every entry of the full table copies from inside the base table and lies in one of the
/// four quarters.
pub proof fn law_source_in_range(board_size: int, d_head: int, k: int)
    requires
        board_size >= 1,
        d_head >= 4,
        d_head % 4 == 0,
        0 <= k < board_size * board_size * d_head,
    ensures
        0 <= source(board_size, d_head, k) < board_size * (d_head / 4),
        0 <= part(d_head, k) < 4,
        0 <= k / d_head < board_size * board_size,
{
    let quarter = d_head / 4;
    let cells = board_size * board_size;
    lemma_fundamental_div_mod(k, d_head);
    lemma_mod_bound(k, d_head);
    let cell = k / d_head;
    assert(0 <= cell < cells) by (nonlinear_arith)
        requires
            0 <= k < cells * d_head,
            k == d_head * cell + k % d_head,
            0 <= k % d_head < d_head,
    ;
    law_index_round_trip(board_size, 0, 0, cell);
    let o = k % d_head;
    lemma_fundamental_div_mod(o, quarter);
    lemma_mod_bound(o, quarter);
    let p = o / quarter;
    assert(0 <= p < 4) by (nonlinear_arith)
        requires
            0 <= o < 4 * quarter,
            o == quarter * p + o % quarter,
            0 <= o % quarter < quarter,
    ;
    let line = if p < 2 {
        cell / board_size
    } else {
        cell % board_size
    };
    assert(0 <= line * quarter && line * quarter + o % quarter < board_size * quarter)
        by (nonlinear_arith)
        requires
            0 <= line < board_size,
            0 <= o % quarter < quarter,
    ;
}

/// The cell in the corner copies the angles of row 0 and column 0 only.
pub proof fn law_origin_uses_first_angles(board_size: int, d_head: int, k: int)
    requires
        board_size >= 1,
        d_head >= 4,
        d_head % 4 == 0,
        0 <= k < d_head,
    ensures
        0 <= source(board_size, d_head, k) < d_head / 4,
{
    assert(k / d_head == 0) by (nonlinear_arith)
        requires
            0 <= k < d_head,
    ;
    assert(0int / board_size == 0 && 0int % board_size == 0) by (nonlinear_arith)
        requires
            board_size >= 1,
    ;
    lemma_mod_bound(k % d_head, d_head / 4);
    assert(0 * (d_head / 4) == 0);
}

/// The length of a base table: a quarter of a head for each line of the board.
pub fn base_len(board_size: usize, d_head: usize) -> (n: usize)
    requires
        d_head >= 4,
        d_head % 4 == 0,
        board_size * d_head <= usize::MAX,
    ensures
        n == board_size * (d_head / 4),
{
    assert(board_size * (d_head / 4) <= board_size * d_head) by (nonlinear_arith)
        requires
            d_head >= 4,
    ;
    board_size * (d_head / 4)
}

/// Lays a base table out over all cells. For cosines `even` and `odd` are the same table;
/// for sines `even` holds the negated one.
pub fn spread<T: Copy>(even: &Vec<T>, odd: &Vec<T>, board_size: usize, d_head: usize) -> (table: Vec<
    T,
>)
    requires
        board_size >= 1,
        d_head >= 4,
        d_head % 4 == 0,
        board_size * board_size * d_head <= usize::MAX,
        even@.len() == board_size * (d_head / 4),
        odd@.len() == board_size * (d_head / 4),
    ensures
        table@ == spread_table(even@, odd@, board_size as int, d_head as int),
{
    let quarter: usize = d_head / 4;
    proof {
        assert(board_size * board_size <= board_size * board_size * d_head) by (nonlinear_arith)
            requires
                d_head >= 1,
        ;
    }
    let total: usize = board_size * board_size * d_head;
    let mut table: Vec<T> = Vec::with_capacity(total);
    for k in 0..total
        invariant
            board_size >= 1,
            d_head >= 4,
            d_head % 4 == 0,
            quarter == d_head / 4,
            total == board_size * board_size * d_head,
            even@.len() == board_size * quarter,
            odd@.len() == board_size * quarter,
            table@ == spread_table(even@, odd@, board_size as int, d_head as int).take(k as int),
    {
        proof {
            law_source_in_range(board_size as int, d_head as int, k as int);
        }
        let cell: usize = k / d_head;
        let offset: usize = k % d_head;
        let part_of: usize = offset / quarter;
        let line: usize = if part_of < 2 {
            cell / board_size
        } else {
            cell % board_size
        };
        proof {
            assert(line * quarter >= 0) by (nonlinear_arith);
            assert(line * quarter + offset % quarter == source(
                board_size as int,
                d_head as int,
                k as int,
            ));
            assert(even@.len() == even.len());
        }
        let from: usize = line * quarter + offset % quarter;
        let value: T = if part_of % 2 == 0 {
            even[from]
        } else {
            odd[from]
        };
        table.push(value);
        assert(table@ =~= spread_table(even@, odd@, board_size as int, d_head as int).take(k + 1));
    }
    assert(spread_table(even@, odd@, board_size as int, d_head as int).take(total as int)
        =~= spread_table(even@, odd@, board_size as int, d_head as int));
    table
}

/// The angle by which the entry `j` of a quarter is turned at the place `pos` of a line.
pub open spec fn angle<V: Curve>(pos: usize, j: usize, d_head: usize) -> V {
    v_times(
        v_count(pos),
        v_raised(
            v_count(10000),
            v_over(v_times(v_negated(v_count(4)), v_count(j)), v_count(d_head)),
        ),
    )
}

/// The angles of a base table: a quarter of a head for each place of a line.
pub open spec fn angles<V: Curve>(board_size: int, d_head: int) -> Seq<V> {
    let quarter = d_head / 4;
    Seq::new(
        (board_size * quarter) as nat,
        |i: int| angle((i / quarter) as usize, (i % quarter) as usize, d_head as usize),
    )
}

/// The cosines of angles.
pub open spec fn cosines<V: Curve>(angles: Seq<V>) -> Seq<V> {
    angles.map_values(|a: V| v_cos(a))
}

/// The sines of angles.
pub open spec fn sines<V: Curve>(angles: Seq<V>) -> Seq<V> {
    angles.map_values(|a: V| v_sin(a))
}

/// Numbers with the opposite sign.
pub open spec fn negated<V: Curve>(items: Seq<V>) -> Seq<V> {
    items.map_values(|x: V| v_negated(x))
}

/// The table of cosines for all cells: in a head those of the row twice and of the column twice.
pub open spec fn cosine_table<V: Curve>(board_size: int, d_head: int) -> Seq<V> {
    let base = angles::<V>(board_size, d_head);
    spread_table(cosines(base), cosines(base), board_size, d_head)
}

/// The table of sines for all cells, of which the first and the third quarter of a head are
/// negated.
pub open spec fn sine_table<V: Curve>(board_size: int, d_head: int) -> Seq<V> {
    let base = angles::<V>(board_size, d_head);
    spread_table(negated(sines(base)), sines(base), board_size, d_head)
}

/// The tables of cosines and of sines for all cells. In a head the cosines are those of the
/// row twice and of the column twice; of the sines the first and the third quarter are
/// negated.
pub fn rope_tables<V: Curve>(board_size: usize, d_head: usize) -> (tables: (Vec<V>, Vec<V>))
    requires
        exact_curve::<V>(),
        board_size >= 1,
        d_head >= 4,
        d_head % 4 == 0,
        board_size * board_size * d_head <= usize::MAX,
    ensures
        ({
            let base = angles::<V>(board_size as int, d_head as int);
            &&& tables.0@ == spread_table(
                cosines(base),
                cosines(base),
                board_size as int,
                d_head as int,
            )
            &&& tables.1@ == spread_table(
                negated(sines(base)),
                sines(base),
                board_size as int,
                d_head as int,
            )
        }),
        tables.0@ == cosine_table::<V>(board_size as int, d_head as int),
        tables.1@ == sine_table::<V>(board_size as int, d_head as int),
{
    let ghost base = angles::<V>(board_size as int, d_head as int);
    assert(board_size * d_head <= board_size * board_size * d_head) by (nonlinear_arith)
        requires
            board_size >= 1,
            d_head >= 4,
    ;
    let quarter: usize = d_head / 4;
    let n: usize = base_len(board_size, d_head);
    let mut cos: Vec<V> = Vec::new();
    let mut sin: Vec<V> = Vec::new();
    let mut minus_sin: Vec<V> = Vec::new();
    for i in 0..n
        invariant
            exact_curve::<V>(),
            d_head >= 4,
            quarter == d_head / 4,
            base == angles::<V>(board_size as int, d_head as int),
            n == base.len(),
            cos@ == cosines(base).take(i as int),
            sin@ == sines(base).take(i as int),
            minus_sin@ == negated(sines(base)).take(i as int),
    {
        let power: V = V::count(4).negated().times(V::count(i % quarter)).over(
            V::count(d_head),
        );
        let turn: V = V::count(i / quarter).times(V::count(10000).raised(power));
        assert(turn == base[i as int]);
        let s: V = turn.sin();
        cos.push(turn.cos());
        sin.push(s);
        minus_sin.push(s.negated());
        assert(cos@ =~= cosines(base).take(i + 1));
        assert(sin@ =~= sines(base).take(i + 1));
        assert(minus_sin@ =~= negated(sines(base)).take(i + 1));
    }
    assert(cos@ =~= cosines(base));
    assert(sin@ =~= sines(base));
    assert(minus_sin@ =~= negated(sines(base)));
    (spread(&cos, &cos, board_size, d_head), spread(&minus_sin, &sin, board_size, d_head))
}

/// The entry of a head that the entry `k` is turned with: the first quarter with the second,
/// and the third with the fourth.
pub open spec fn partner(d_head: int, k: int) -> int {
    let quarter = d_head / 4;
    if (k / quarter) % 2 == 0 {
        k + quarter
    } else {
        k - quarter
    }
}

/// Entries are turned in pairs, and both of a pair by the same angle, in opposite directions.
pub proof fn law_entries_turn_in_pairs(board_size: int, d_head: int, cell: int, k: int)
    requires
        board_size >= 1,
        d_head >= 4,
        d_head % 4 == 0,
        0 <= cell < board_size * board_size,
        0 <= k < d_head,
    ensures
        0 <= partner(d_head, k) < d_head,
        partner(d_head, partner(d_head, k)) == k,
        source(board_size, d_head, cell * d_head + k) == source(
            board_size,
            d_head,
            cell * d_head + partner(d_head, k),
        ),
        part(d_head, cell * d_head + k) % 2 != part(
            d_head,
            cell * d_head + partner(d_head, k),
        ) % 2,
{
    let quarter = d_head / 4;
    let p = k / quarter;
    let o = k % quarter;
    lemma_fundamental_div_mod(k, quarter);
    lemma_mod_bound(k, quarter);
    assert(0 <= p < 4) by (nonlinear_arith)
        requires
            0 <= k < 4 * quarter,
            k == quarter * p + o,
            0 <= o < quarter,
    ;
    let q = if p % 2 == 0 {
        p + 1
    } else {
        p - 1
    };
    let l = partner(d_head, k);
    assert(l == q * quarter + o) by (nonlinear_arith)
        requires
            k == quarter * p + o,
            l == (if p % 2 == 0 {
                k + quarter
            } else {
                k - quarter
            }),
            q == (if p % 2 == 0 {
                p + 1
            } else {
                p - 1
            }),
    ;
    assert(0 <= q * quarter && q * quarter + quarter <= 4 * quarter) by (nonlinear_arith)
        requires
            0 <= q < 4,
            quarter >= 1,
    ;
    lemma_fundamental_div_mod_converse(l, quarter, q, o);
    lemma_fundamental_div_mod_converse(cell * d_head + k, d_head, cell, k);
    lemma_fundamental_div_mod_converse(cell * d_head + l, d_head, cell, l);
}

} // verus!
