use vstd::prelude::*;
use crate::graphics::grid::{
    box_col, box_origin, box_row, color_byte, lemma_box_in_range, lemma_box_is_cell, paint_box,
    DISPLAY_LEN,
};
use crate::hardware::machine::{
    collides, draw, flips, machine_wf, n_of, sprite_pixel, x_of, y_of, Machine,
};

verus! {

// The stages of drawing a sprite, cell by cell, and how each pixel moves from one
// stage to the next.

/// Cell (`a`, `b`) is flipped by sprite `i` and comes before pixel `bit` of sprite row
/// `row` in drawing order.
pub open spec fn drawn_before(m: Machine, i: u16, a: int, b: int, row: int, bit: int) -> bool {
    let c = (a - m.v[x_of(i)]) % 64;
    let r = (b - m.v[y_of(i)]) % 32;
    flips(m, i, a, b) && (r < row || (r == row && c < bit))
}

/// Some cell drawn before (`row`, `bit`) was lit before the sprite was drawn.
pub open spec fn collided_before(m: Machine, i: u16, row: int, bit: int) -> bool {
    exists|a: int, b: int|
        0 <= a < 64 && 0 <= b < 32 && #[trigger] drawn_before(m, i, a, b, row, bit)
            && m.cells[a][b] == 1
}

/// The cells while drawing sprite `i` on `m0`, just before pixel `bit` of sprite row
/// `row`: exactly the cells drawn so far are toggled.
pub open spec fn cells_drawn(m0: Machine, i: u16, cells: Seq<Seq<u8>>, row: int, bit: int) -> bool {
    &&& cells.len() == 64
    &&& forall|a: int| 0 <= a < 64 ==> (#[trigger] cells[a]).len() == 32
    &&& forall|a: int, b: int|
        0 <= a < 64 && 0 <= b < 32 ==> #[trigger] cells[a][b] == if drawn_before(m0, i, a, b, row, bit) {
            m0.cells[a][b] ^ 1u8
        } else {
            m0.cells[a][b]
        }
}

/// The frame while drawing sprite `i` on `m0`: exactly the boxes of the cells drawn
/// so far are repainted.
pub open spec fn display_drawn(
    m0: Machine,
    i: u16,
    cells: Seq<Seq<u8>>,
    display: Seq<u8>,
    row: int,
    bit: int,
) -> bool {
    &&& display.len() == DISPLAY_LEN
    &&& forall|j: int|
        0 <= j < DISPLAY_LEN ==> #[trigger] display[j] == if drawn_before(
            m0,
            i,
            box_col(j),
            box_row(j),
            row,
            bit,
        ) {
            color_byte(cells[box_col(j)][box_row(j)], j % 4)
        } else {
            m0.display[j]
        }
}

/// `m` is the state reached from `m0` while drawing sprite `i`, just before pixel
/// `bit` of sprite row `row`, with `collision` recording whether a lit cell was flipped.
pub open spec fn drawing(m0: Machine, i: u16, m: Machine, row: int, bit: int, collision: u8) -> bool {
    &&& m == (Machine { cells: m.cells, display: m.display, ..m0 })
    &&& cells_drawn(m0, i, m.cells, row, bit)
    &&& display_drawn(m0, i, m.cells, m.display, row, bit)
    &&& collision <= 1
    &&& (collision == 1) == collided_before(m0, i, row, bit)
}

/// On a circle of `m` positions, `a` lies `k` steps after `v` exactly when it is
/// `(v + k) % m`.
pub proof fn lemma_wrap(v: int, k: int, a: int, m: int)
    requires
        0 < m,
        0 <= k < m,
        0 <= a < m,
        0 <= v,
    ensures
        ((a - v) % m == k) <==> (a == (v + k) % m),
{
    vstd::arithmetic::div_mod::lemma_fundamental_div_mod(a - v, m);
    vstd::arithmetic::div_mod::lemma_fundamental_div_mod(v + k, m);
    let q = (v + k) / m;
    if a == (v + k) % m {
        assert(a - v == (-q) * m + k) by (nonlinear_arith)
            requires
                v + k == m * q + a,
        ;
        vstd::arithmetic::div_mod::lemma_fundamental_div_mod_converse(a - v, m, -q, k);
    }
    if (a - v) % m == k {
        let q2 = (a - v) / m;
        assert(v + k == (-q2) * m + a) by (nonlinear_arith)
            requires
                a - v == m * q2 + k,
        ;
        vstd::arithmetic::div_mod::lemma_fundamental_div_mod_converse(v + k, m, -q2, a);
    }
}

/// Two stages of drawing that have drawn the same cells agree on collisions.
pub proof fn lemma_same_drawn(m0: Machine, i: u16, r1: int, b1: int, r2: int, b2: int)
    requires
        forall|a: int, b: int|
            0 <= a < 64 && 0 <= b < 32 ==> #[trigger] drawn_before(m0, i, a, b, r1, b1)
                == drawn_before(m0, i, a, b, r2, b2),
    ensures
        collided_before(m0, i, r1, b1) == collided_before(m0, i, r2, b2),
{
    if collided_before(m0, i, r1, b1) {
        let (a, b) = choose|a: int, b: int|
            0 <= a < 64 && 0 <= b < 32 && #[trigger] drawn_before(m0, i, a, b, r1, b1)
                && m0.cells[a][b] == 1;
        assert(drawn_before(m0, i, a, b, r2, b2));
    }
    if collided_before(m0, i, r2, b2) {
        let (a, b) = choose|a: int, b: int|
            0 <= a < 64 && 0 <= b < 32 && #[trigger] drawn_before(m0, i, a, b, r2, b2)
                && m0.cells[a][b] == 1;
        assert(drawn_before(m0, i, a, b, r1, b1));
    }
}

/// Drawing the set pixel `bit` of sprite row `row` adds exactly the cell it lands on.
pub proof fn lemma_drawn_step(m0: Machine, i: u16, row: int, bit: int, x: int, y: int)
    requires
        machine_wf(m0),
        0 <= row < n_of(i),
        0 <= bit < 8,
        sprite_pixel(m0.ram[m0.index + row], bit),
        x == (m0.v[x_of(i)] + bit) % 64,
        y == (m0.v[y_of(i)] + row) % 32,
    ensures
        0 <= x < 64,
        0 <= y < 32,
        flips(m0, i, x, y),
        !drawn_before(m0, i, x, y, row, bit),
        forall|a: int, b: int|
            0 <= a < 64 && 0 <= b < 32 ==> #[trigger] drawn_before(m0, i, a, b, row, bit + 1) == (
            drawn_before(m0, i, a, b, row, bit) || (a == x && b == y)),
{
    let vx = m0.v[x_of(i)];
    let vy = m0.v[y_of(i)];
    lemma_wrap(vx as int, bit, x, 64);
    lemma_wrap(vy as int, row, y, 32);
    assert forall|a: int, b: int| 0 <= a < 64 && 0 <= b < 32 implies #[trigger] drawn_before(
        m0,
        i,
        a,
        b,
        row,
        bit + 1,
    ) == (drawn_before(m0, i, a, b, row, bit) || (a == x && b == y)) by {
        if drawn_before(m0, i, a, b, row, bit + 1) && !drawn_before(m0, i, a, b, row, bit) {
            lemma_wrap(vx as int, bit, a, 64);
            lemma_wrap(vy as int, row, b, 32);
        }
    }
}

/// Drawing a set sprite pixel toggles the cell it lands on.
pub proof fn lemma_draw_pixel_cells(
    m0: Machine,
    i: u16,
    before: Seq<Seq<u8>>,
    row: int,
    bit: int,
    x: int,
    y: int,
)
    requires
        machine_wf(m0),
        cells_drawn(m0, i, before, row, bit),
        0 <= x < 64,
        0 <= y < 32,
        !drawn_before(m0, i, x, y, row, bit),
        flips(m0, i, x, y),
        forall|a: int, b: int|
            0 <= a < 64 && 0 <= b < 32 ==> #[trigger] drawn_before(m0, i, a, b, row, bit + 1) == (
            drawn_before(m0, i, a, b, row, bit) || (a == x && b == y)),
    ensures
        before[x][y] == m0.cells[x][y],
        cells_drawn(
            m0,
            i,
            before.update(x, before[x].update(y, before[x][y] ^ 1u8)),
            row,
            bit + 1,
        ),
{
    let after = before.update(x, before[x].update(y, before[x][y] ^ 1u8));
    assert forall|a: int, b: int| 0 <= a < 64 && 0 <= b < 32 implies #[trigger] after[a][b]
        == if drawn_before(m0, i, a, b, row, bit + 1) {
        m0.cells[a][b] ^ 1u8
    } else {
        m0.cells[a][b]
    } by {
        assert(before[a][b] == if drawn_before(m0, i, a, b, row, bit) {
            m0.cells[a][b] ^ 1u8
        } else {
            m0.cells[a][b]
        });
    }
    assert forall|a: int| 0 <= a < 64 implies (#[trigger] after[a]).len() == 32 by {}
}

/// Drawing a set sprite pixel repaints the box of the cell it lands on.
pub proof fn lemma_draw_pixel_display(
    m0: Machine,
    i: u16,
    before: Seq<Seq<u8>>,
    after: Seq<Seq<u8>>,
    frame: Seq<u8>,
    row: int,
    bit: int,
    x: int,
    y: int,
)
    requires
        display_drawn(m0, i, before, frame, row, bit),
        cells_drawn(m0, i, before, row, bit),
        cells_drawn(m0, i, after, row, bit + 1),
        before.len() == 64,
        after == before.update(x, before[x].update(y, before[x][y] ^ 1u8)),
        0 <= x < 64,
        0 <= y < 32,
        forall|a: int, b: int|
            0 <= a < 64 && 0 <= b < 32 ==> #[trigger] drawn_before(m0, i, a, b, row, bit + 1) == (
            drawn_before(m0, i, a, b, row, bit) || (a == x && b == y)),
    ensures
        display_drawn(
            m0,
            i,
            after,
            paint_box(frame, box_origin(x, y), before[x][y] ^ 1u8),
            row,
            bit + 1,
        ),
{
    let painted = paint_box(frame, box_origin(x, y), before[x][y] ^ 1u8);
    assert forall|j: int| 0 <= j < DISPLAY_LEN implies #[trigger] painted[j] == if drawn_before(
        m0,
        i,
        box_col(j),
        box_row(j),
        row,
        bit + 1,
    ) {
        color_byte(after[box_col(j)][box_row(j)], j % 4)
    } else {
        m0.display[j]
    } by {
        lemma_box_is_cell(x, y, j);
        lemma_box_in_range(j);
        assert(frame[j] == if drawn_before(m0, i, box_col(j), box_row(j), row, bit) {
            color_byte(before[box_col(j)][box_row(j)], j % 4)
        } else {
            m0.display[j]
        });
    }
}

/// Drawing a set sprite pixel records a collision when its cell was lit.
pub proof fn lemma_draw_pixel_collision(
    m0: Machine,
    i: u16,
    row: int,
    bit: int,
    x: int,
    y: int,
    col: u8,
    col2: u8,
)
    requires
        machine_wf(m0),
        col <= 1,
        (col == 1) == collided_before(m0, i, row, bit),
        0 <= x < 64,
        0 <= y < 32,
        col2 == col | m0.cells[x][y],
        forall|a: int, b: int|
            0 <= a < 64 && 0 <= b < 32 ==> #[trigger] drawn_before(m0, i, a, b, row, bit + 1) == (
            drawn_before(m0, i, a, b, row, bit) || (a == x && b == y)),
    ensures
        col2 <= 1,
        (col2 == 1) == collided_before(m0, i, row, bit + 1),
{
    assert(m0.cells[x][y] <= 1);
    lemma_bits(col, m0.cells[x][y]);
    if col2 == 1 {
        if m0.cells[x][y] == 1 {
            assert(drawn_before(m0, i, x, y, row, bit + 1));
        } else {
            let (a, b) = choose|a: int, b: int|
                0 <= a < 64 && 0 <= b < 32 && #[trigger] drawn_before(m0, i, a, b, row, bit)
                    && m0.cells[a][b] == 1;
            assert(drawn_before(m0, i, a, b, row, bit + 1));
        }
    }
    if collided_before(m0, i, row, bit + 1) {
        let (a, b) = choose|a: int, b: int|
            0 <= a < 64 && 0 <= b < 32 && #[trigger] drawn_before(m0, i, a, b, row, bit + 1)
                && m0.cells[a][b] == 1;
        if !(a == x && b == y) {
            assert(drawn_before(m0, i, a, b, row, bit));
        }
    }
}

/// Skipping a clear sprite pixel changes nothing.
pub proof fn lemma_skip_pixel(m0: Machine, i: u16, m: Machine, row: int, bit: int, col: u8)
    requires
        drawing(m0, i, m, row, bit, col),
        0 <= row,
        0 <= bit < 8,
        !sprite_pixel(m0.ram[m0.index + row], bit),
    ensures
        drawing(m0, i, m, row, bit + 1, col),
{
    assert forall|a: int, b: int| #[trigger] drawn_before(m0, i, a, b, row, bit + 1)
        == drawn_before(m0, i, a, b, row, bit) by {}
    lemma_same_drawn(m0, i, row, bit + 1, row, bit);
}

/// Finishing a sprite row.
pub proof fn lemma_next_row(m0: Machine, i: u16, m: Machine, row: int, col: u8)
    requires
        drawing(m0, i, m, row, 8, col),
    ensures
        drawing(m0, i, m, row + 1, 0, col),
{
    assert forall|a: int, b: int| #[trigger] drawn_before(m0, i, a, b, row, 8)
        == drawn_before(m0, i, a, b, row + 1, 0) by {}
    lemma_same_drawn(m0, i, row, 8, row + 1, 0);
}

/// Once every sprite row is drawn, the state is the one `draw` describes, but for VF.
pub proof fn lemma_draw_done(m0: Machine, i: u16, m: Machine, col: u8)
    requires
        machine_wf(m0),
        drawing(m0, i, m, n_of(i), 0, col),
    ensures
        m.cells == draw(m0, i).cells,
        m.display == draw(m0, i).display,
        (col == 1) == collides(m0, i),
{
    assert forall|a: int, b: int| #[trigger] drawn_before(m0, i, a, b, n_of(i), 0) == flips(
        m0,
        i,
        a,
        b,
    ) by {}
    let expected = draw(m0, i);
    assert forall|a: int| 0 <= a < 64 implies m.cells[a] =~= expected.cells[a] by {
        assert forall|b: int| 0 <= b < 32 implies m.cells[a][b] == expected.cells[a][b] by {}
    }
    assert(m.cells =~= expected.cells);
    assert forall|j: int| 0 <= j < DISPLAY_LEN implies m.display[j] == expected.display[j] by {
        lemma_box_in_range(j);
    }
    assert(m.display =~= expected.display);
    if collides(m0, i) {
        let (a, b) = choose|a: int, b: int|
            0 <= a < 64 && 0 <= b < 32 && #[trigger] flips(m0, i, a, b) && m0.cells[a][b] == 1;
        assert(drawn_before(m0, i, a, b, n_of(i), 0));
    }
    if col == 1 {
        let (a, b) = choose|a: int, b: int|
            0 <= a < 64 && 0 <= b < 32 && #[trigger] drawn_before(m0, i, a, b, n_of(i), 0)
                && m0.cells[a][b] == 1;
        assert(flips(m0, i, a, b));
    }
}

/// Toggling a cell bit, and or-ing two bits.
pub proof fn lemma_bits(c: u8, d: u8)
    requires
        c <= 1,
        d <= 1,
    ensures
        c ^ 1u8 <= 1,
        (c ^ 1u8 == 1) == (c == 0),
        c | d <= 1,
        (c | d == 1) == (c == 1 || d == 1),
{
    assert(c <= 1 ==> c ^ 1u8 <= 1 && ((c ^ 1u8 == 1) == (c == 0))) by (bit_vector);
    assert(c <= 1 && d <= 1 ==> c | d <= 1 && ((c | d == 1) == (c == 1 || d == 1))) by (bit_vector);
}

} // verus!
