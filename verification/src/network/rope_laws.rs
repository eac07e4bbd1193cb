//! By how much rotary encoding turns the entries of an attention head. The laws are stated for
//! numbers that are not rounded.

use vstd::prelude::*;
use vstd::arithmetic::div_mod::lemma_fundamental_div_mod_converse;
use crate::game::board::lemma_index_in_grid;
use crate::network::rope::{angle, angles, cosine_table, law_source_in_range, sine_table, source};
use crate::network::rope;
use crate::number::{v_count, v_negated, v_over, v_raised, v_times, Curve};
use crate::reals::{lemma_raise_sum, lemma_raise_zero, unrounded_waves};

verus! {

/// An angle as a power of 10000.
proof fn lemma_angle<V: Curve>(
    size: spec_fn(V) -> real,
    raise: spec_fn(real, real) -> real,
    cosine: spec_fn(real) -> real,
    sine: spec_fn(real) -> real,
    pos: usize,
    j: usize,
    d_head: usize,
)
    requires
        unrounded_waves(size, raise, cosine, sine),
        d_head > 0,
    ensures
        size(angle(pos, j, d_head)) == pos as real * raise(
            10000real,
            (-4real * j as real) / d_head as real,
        ),
{
    let exponent = v_over::<V>(v_times(v_negated(v_count(4)), v_count(j)), v_count(d_head));
    assert(size(v_negated::<V>(v_count(4))) == -4real);
    assert(size(exponent) == (-4real * j as real) / d_head as real);
    assert(size(v_count::<V>(10000)) == 10000real);
    assert(size(v_raised(v_count(10000), exponent)) == raise(10000real, size(exponent)));
}

/// The frequencies of a quarter, which are the angles at the place 1, form a geometric
/// sequence: the first is 1, each is the one before times the same ratio, and after as many
/// steps as a quarter has entries it comes down to 1/10000. At other places the angles are
/// multiples of the frequencies.
pub proof fn law_frequencies_are_geometric<V: Curve>(
    size: spec_fn(V) -> real,
    raise: spec_fn(real, real) -> real,
    cosine: spec_fn(real) -> real,
    sine: spec_fn(real) -> real,
    pos: usize,
    j: usize,
    d_head: usize,
)
    requires
        unrounded_waves(size, raise, cosine, sine),
        d_head >= 4,
        d_head % 4 == 0,
        j < d_head / 4,
    ensures
        size(angle(1, 0, d_head)) == 1real,
        size(angle(1, (j + 1) as usize, d_head)) == size(angle(1, j, d_head)) * size(
            angle(1, 1, d_head),
        ),
        0real < size(angle(1, 1, d_head)) < 1real,
        size(angle(1, (d_head / 4) as usize, d_head)) * 10000real == 1real,
        size(angle(pos, j, d_head)) == pos as real * size(angle(1, j, d_head)),
{
    let d = d_head as real;
    let b = 10000real;
    let next = (j + 1) as usize;
    let quarter = (d_head / 4) as usize;
    lemma_angle(size, raise, cosine, sine, 1, 0, d_head);
    lemma_angle(size, raise, cosine, sine, 1, 1, d_head);
    lemma_angle(size, raise, cosine, sine, 1, j, d_head);
    lemma_angle(size, raise, cosine, sine, 1, next, d_head);
    lemma_angle(size, raise, cosine, sine, 1, quarter, d_head);
    lemma_angle(size, raise, cosine, sine, pos, j, d_head);
    let x = (-4real * j as real) / d;
    let y = (-4real * 1real) / d;
    lemma_raise_zero(raise, b);
    assert((-4real * 0real) / d == 0real) by (nonlinear_arith)
        requires
            d > 0real,
    ;
    assert((-4real * (j as real + 1real)) / d == x + y) by {
        let u = -4real * j as real;
        assert(-4real * (j as real + 1real) == u + -4real * 1real) by (nonlinear_arith)
            requires
                u == -4real * j as real,
        ;
        assert((u + -4real * 1real) / d == u / d + (-4real * 1real) / d) by (nonlinear_arith)
            requires
                d > 0real,
        ;
    }
    assert(next as real == j as real + 1real);
    lemma_raise_sum(raise, b, x, y);
    assert(y < 0real) by (nonlinear_arith)
        requires
            d > 0real,
            y == (-4real * 1real) / d,
    ;
    lemma_raise_sum(raise, b, y, 0real);
    let q = quarter as real;
    assert(d == 4real * q);
    assert((-4real * q) / (4real * q) == -1real) by (nonlinear_arith)
        requires
            q >= 1real,
    ;
    lemma_raise_sum(raise, b, -1real, 1real);
    assert(-1real + 1real == 0real);
}

/// The tables for the cell in row `row` and column `col`: an entry of the first two quarters
/// holds the cosine and the sine of the row times the frequency of its place in the quarter,
/// one of the last two those of the column. The sines of the first and the third quarter have
/// the opposite sign.
pub proof fn law_tables_turn_by_place<V: Curve>(
    size: spec_fn(V) -> real,
    raise: spec_fn(real, real) -> real,
    cosine: spec_fn(real) -> real,
    sine: spec_fn(real) -> real,
    board_size: usize,
    d_head: usize,
    row: usize,
    col: usize,
    part: usize,
    j: usize,
)
    requires
        unrounded_waves(size, raise, cosine, sine),
        d_head >= 4,
        d_head % 4 == 0,
        row < board_size,
        col < board_size,
        part < 4,
        j < d_head / 4,
    ensures
        ({
            let cos = cosine_table::<V>(board_size as int, d_head as int);
            let sin = sine_table::<V>(board_size as int, d_head as int);
            let at = (row * board_size + col) * d_head + part * (d_head / 4) + j;
            let turn = (if part < 2 {
                row as real
            } else {
                col as real
            }) * size(angle(1, j, d_head));
            &&& cos.len() == board_size * board_size * d_head
            &&& sin.len() == cos.len()
            &&& 0 <= at < cos.len()
            &&& size(cos[at]) == cosine(turn)
            &&& size(sin[at]) == (if part % 2 == 0 {
                -sine(turn)
            } else {
                sine(turn)
            })
        }),
{
    let n = board_size as int;
    let d = d_head as int;
    let quarter = d / 4;
    let cell = row * n + col;
    let k = part * quarter + j;
    let at = cell * d + part * quarter + j;
    lemma_index_in_grid(n, row as int, col as int);
    assert(0 <= part * quarter && part * quarter + quarter <= 4 * quarter) by (nonlinear_arith)
        requires
            0 <= part < 4,
            quarter >= 1,
    ;
    assert(0 <= k < d);
    assert(0 <= cell * d && cell * d + d <= n * n * d) by (nonlinear_arith)
        requires
            0 <= cell < n * n,
            d >= 4,
    ;
    lemma_fundamental_div_mod_converse(at, d, cell, k);
    lemma_fundamental_div_mod_converse(k, quarter, part as int, j as int);
    law_source_in_range(n, d, at);
    let line = if part < 2 {
        row
    } else {
        col
    };
    let from = line * quarter + j;
    assert(source(n, d, at) == from);
    assert(rope::part(d, at) == part);
    lemma_fundamental_div_mod_converse(from, quarter, line as int, j as int);
    let base = angles::<V>(n, d);
    assert(base[from] == angle::<V>(line, j, d_head));
    lemma_angle(size, raise, cosine, sine, line, j, d_head);
    lemma_angle(size, raise, cosine, sine, 1, j, d_head);
}

} // verus!
