use vstd::prelude::*;

verus! {

/// Number of cells across the screen.
pub const GRID_X_BOXES: usize = 64;

/// Number of cells down the screen.
pub const GRID_Y_BOXES: usize = 32;

/// Width of one cell in frame pixels.
pub const BOX_WIDTH_X: usize = 16;

/// Height of one cell in frame pixels.
pub const BOX_HEIGHT_Y: usize = 16;

/// Length in bytes of the RGBA frame buffer.
pub const DISPLAY_LEN: usize = GRID_X_BOXES * BOX_WIDTH_X * GRID_Y_BOXES * BOX_HEIGHT_Y * 4;

/// An RGBA pixel.
pub type Color = [u8; 4];

/// Colour of a dark cell.
pub const BLACK: Color = [0x00, 0x00, 0x00, 0x01];

/// Colour of a lit cell.
pub const WHITE: Color = [0xff, 0xff, 0xff, 0xff];

/// Byte `k` (0 to 3) of the colour of a cell holding `v`: white for 1, black otherwise.
pub open spec fn color_byte(v: u8, k: int) -> u8 {
    if v == 1 { WHITE@[k] } else { BLACK@[k] }
}

/// The cell column that frame byte `j` belongs to.
pub open spec fn box_col(j: int) -> int {
    (j % 4096) / 64
}

/// The cell row that frame byte `j` belongs to.
pub open spec fn box_row(j: int) -> int {
    j / 65536
}

/// Offset in the frame of the first byte of the cell box at (`x`, `y`).
pub open spec fn box_origin(x: int, y: int) -> int {
    x * 64 + y * 65536
}

/// Frame byte `j` lies in the first `rows` pixel rows of the box drawn from offset `origin`.
pub open spec fn in_box_rows(origin: int, rows: int, j: int) -> bool {
    &&& origin <= j
    &&& (j - origin) / 4096 <= rows - 1
    &&& (j - origin) % 4096 <= 63
}

/// Frame byte `j` lies in the box drawn from offset `origin`.
pub open spec fn in_box(origin: int, j: int) -> bool {
    in_box_rows(origin, 16, j)
}

/// `frame` with the box drawn from `origin` painted in the colour of `v`.
pub open spec fn paint_box(frame: Seq<u8>, origin: int, v: u8) -> Seq<u8> {
    Seq::new(frame.len(), |j: int| if in_box(origin, j) { color_byte(v, j % 4) } else { frame[j] })
}

/// Frame byte `b` at position `k` within its pixel is consistent with a cell holding `c`:
/// it shows the cell's colour, or it is still blank and the cell is dark.
pub open spec fn byte_shows(b: u8, c: u8, k: int) -> bool {
    b == color_byte(c, k) || (c == 0 && b == 0)
}

/// The screen: a grid of cells and the RGBA frame that displays them, each cell
/// drawn as a box of `BOX_WIDTH_X` by `BOX_HEIGHT_Y` pixels.
pub struct Grid {
    /// Height of the frame in pixels.
    pub display_height: usize,
    /// Width of the frame in pixels.
    pub display_width: usize,
    /// The cells, indexed by column then row; 1 is lit, 0 is dark.
    pub data: [[u8; 32]; 64],
    /// The RGBA frame buffer, row by row.
    pub display: Vec<u8>,
}

impl Grid {
    /// The frame has its full size and the dimensions match it.
    pub open spec fn wf(self) -> bool {
        &&& self.display@.len() == DISPLAY_LEN
        &&& self.display_width == GRID_X_BOXES * BOX_WIDTH_X
        &&& self.display_height == GRID_Y_BOXES * BOX_HEIGHT_Y
    }

    /// The value of the cell at column `x`, row `y`.
    pub open spec fn cell(self, x: int, y: int) -> u8 {
        self.data@[x]@[y]
    }

    /// Every cell holds 0 or 1.
    pub open spec fn cells_are_bits(self) -> bool {
        forall|x: int, y: int|
            0 <= x < GRID_X_BOXES && 0 <= y < GRID_Y_BOXES ==> #[trigger] self.cell(x, y) <= 1
    }

    /// Every byte of the frame is consistent with the cell it belongs to.
    pub open spec fn shows_cells(self) -> bool {
        forall|j: int|
            0 <= j < DISPLAY_LEN ==> byte_shows(
                #[trigger] self.display@[j],
                self.cell(box_col(j), box_row(j)),
                j % 4,
            )
    }

    /// A blank screen: every cell dark, every frame byte zero.
    pub fn new() -> (g: Self)
        ensures
            g.wf(),
            forall|x: int, y: int|
                0 <= x < GRID_X_BOXES && 0 <= y < GRID_Y_BOXES ==> #[trigger] g.cell(x, y) == 0,
            forall|j: int| 0 <= j < DISPLAY_LEN ==> #[trigger] g.display@[j] == 0,
            g.cells_are_bits(),
            g.shows_cells(),
    {
        let display_width = GRID_X_BOXES * BOX_WIDTH_X;
        let display_height = GRID_Y_BOXES * BOX_HEIGHT_Y;
        let grid = [[0u8; 32]; 64];
        let display = vec![0u8; DISPLAY_LEN];
        let g = Self { data: grid, display, display_width, display_height };
        assert forall|j: int| 0 <= j < DISPLAY_LEN implies #[trigger] g.display@[j] == 0 by {
            assert(cloned(0u8, g.display@[j]));
        }
        g
    }

    /// Copies the frame into `frame`, four bytes (one pixel) at a time, for as many
    /// whole pixels as `frame` holds; a trailing partial pixel is left as it was.
    pub fn draw(&self, frame: &mut [u8])
        requires
            old(frame)@.len() / 4 * 4 <= self.display@.len(),
        ensures
            final(frame)@.len() == old(frame)@.len(),
            forall|j: int|
                0 <= j < old(frame)@.len() ==> #[trigger] final(frame)@[j] == if j < old(
                    frame,
                )@.len() / 4 * 4 {
                    self.display@[j]
                } else {
                    old(frame)@[j]
                },
    {
        let whole = frame.len() / 4 * 4;
        let mut j: usize = 0;
        while j < whole
            invariant
                whole == old(frame)@.len() / 4 * 4,
                whole <= self.display@.len(),
                j <= whole,
                frame@.len() == old(frame)@.len(),
                forall|k: int|
                    0 <= k < frame@.len() ==> #[trigger] frame@[k] == if k < j {
                        self.display@[k]
                    } else {
                        old(frame)@[k]
                    },
            decreases whole - j,
        {
            frame[j] = self.display[j];
            j = j + 1;
        }
    }

    /// Paints the box of the cell at (`x`, `y`): white when `v` is 1, black otherwise.
    /// The box is `BOX_HEIGHT_Y` rows of `BOX_WIDTH_X` pixels starting at `box_origin(x, y)`;
    /// nothing else changes.
    pub fn render_box(&mut self, x: usize, y: usize, v: u8)
        requires
            old(self).display@.len() == DISPLAY_LEN,
            old(self).display_width == GRID_X_BOXES * BOX_WIDTH_X,
            box_origin(x as int, y as int) + 15 * 4096 + 64 <= 2097152,
        ensures
            final(self).display_width == old(self).display_width,
            final(self).display_height == old(self).display_height,
            final(self).data == old(self).data,
            final(self).display@ == paint_box(old(self).display@, box_origin(x as int, y as int), v),
    {
        let ghost origin = box_origin(x as int, y as int);
        let ghost before = self.display@;
        let color: Color = if v == 1 { WHITE } else { BLACK };
        assert(x * BOX_WIDTH_X * 4 == x * 64 && y * BOX_HEIGHT_Y * GRID_X_BOXES * BOX_WIDTH_X * 4
            == y * 65536);
        let mut i: usize = (x * BOX_WIDTH_X * 4) + (y * BOX_HEIGHT_Y * GRID_X_BOXES * BOX_WIDTH_X * 4);
        let upper_limit = BOX_WIDTH_X * 4;
        let mut row: usize = 0;
        while row < BOX_HEIGHT_Y
            invariant
                self.display@.len() == DISPLAY_LEN,
                self.display_width == old(self).display_width,
                self.display_width == GRID_X_BOXES * BOX_WIDTH_X,
                self.display_height == old(self).display_height,
                self.data == old(self).data,
                before == old(self).display@,
                origin == box_origin(x as int, y as int),
                origin + 15 * 4096 + 64 <= 2097152,
                row <= BOX_HEIGHT_Y,
                upper_limit == 64,
                i == origin + row * 4096,
                forall|k: int| 0 <= k < 4 ==> color@[k] == color_byte(v, k),
                forall|j: int|
                    0 <= j < DISPLAY_LEN ==> #[trigger] self.display@[j] == if in_box_rows(
                        origin,
                        row as int,
                        j,
                    ) {
                        color_byte(v, j % 4)
                    } else {
                        before[j]
                    },
            decreases BOX_HEIGHT_Y - row,
        {
            let upper_bound = upper_limit + i;
            let mut k: usize = i;
            while k < upper_bound
                invariant
                    self.display@.len() == DISPLAY_LEN,
                    self.display_width == old(self).display_width,
                    self.display_width == GRID_X_BOXES * BOX_WIDTH_X,
                    self.display_height == old(self).display_height,
                    self.data == old(self).data,
                    origin + 15 * 4096 + 64 <= 2097152,
                    row < BOX_HEIGHT_Y,
                    i == origin + row * 4096,
                    upper_bound == i + 64,
                    i <= k <= upper_bound,
                    forall|c: int| 0 <= c < 4 ==> color@[c] == color_byte(v, c),
                    forall|j: int|
                        0 <= j < DISPLAY_LEN ==> #[trigger] self.display@[j] == if in_box_rows(
                            origin,
                            row as int,
                            j,
                        ) || (i <= j < k) {
                            color_byte(v, j % 4)
                        } else {
                            before[j]
                        },
                decreases upper_bound - k,
            {
                self.display[k] = color[k % 4];
                k = k + 1;
            }
            proof {
                assert forall|j: int| 0 <= j < DISPLAY_LEN implies (in_box_rows(
                    origin,
                    row as int,
                    j,
                ) || (i <= j < upper_bound)) == in_box_rows(origin, row + 1, j) by {
                    lemma_next_box_row(origin, row as int, j);
                }
            }
            i += self.display_width * 4;
            row = row + 1;
        }
        assert(self.display@ =~= paint_box(before, origin, v));
    }
}

/// Adding the next pixel row of a box: byte `j` is in the first `row + 1` rows exactly
/// when it is in the first `row` rows or in row `row` itself.
pub proof fn lemma_next_box_row(origin: int, row: int, j: int)
    requires
        0 <= row,
    ensures
        (in_box_rows(origin, row, j) || (origin + row * 4096 <= j < origin + row * 4096 + 64)) == in_box_rows(origin, row + 1, j),
{
    if origin <= j {
        let d = j - origin;
        vstd::arithmetic::div_mod::lemma_fundamental_div_mod(d, 4096);
        assert(0 <= d % 4096 < 4096);
        if origin + row * 4096 <= j < origin + row * 4096 + 64 {
            vstd::arithmetic::div_mod::lemma_fundamental_div_mod_converse(
                d,
                4096,
                row,
                d - row * 4096,
            );
        }
        if d / 4096 == row && d % 4096 < 64 {
            assert(d == 4096 * row + d % 4096);
        }
    }
}

/// For a cell on the screen, the bytes of its box are exactly the frame bytes whose
/// cell column and row are those of the cell.
pub proof fn lemma_box_is_cell(x: int, y: int, j: int)
    requires
        0 <= x < GRID_X_BOXES,
        0 <= y < GRID_Y_BOXES,
        0 <= j < DISPLAY_LEN,
    ensures
        in_box(box_origin(x, y), j) <==> (box_col(j) == x && box_row(j) == y),
{
    let q = j / 4096;
    let r = j % 4096;
    vstd::arithmetic::div_mod::lemma_fundamental_div_mod(j, 4096);
    if in_box(box_origin(x, y), j) {
        let d = j - box_origin(x, y);
        vstd::arithmetic::div_mod::lemma_fundamental_div_mod(d, 4096);
        let a = d / 4096;
        let b = d % 4096;
        assert(j == 65536 * y + (4096 * a + 64 * x + b));
        vstd::arithmetic::div_mod::lemma_fundamental_div_mod_converse(
            j,
            65536,
            y,
            4096 * a + 64 * x + b,
        );
        vstd::arithmetic::div_mod::lemma_fundamental_div_mod_converse(
            j,
            4096,
            16 * y + a,
            64 * x + b,
        );
        vstd::arithmetic::div_mod::lemma_fundamental_div_mod_converse(64 * x + b, 64, x, b);
    }
    if box_col(j) == x && box_row(j) == y {
        vstd::arithmetic::div_mod::lemma_fundamental_div_mod(r, 64);
        vstd::arithmetic::div_mod::lemma_fundamental_div_mod(j, 65536);
        let rr = r % 64;
        // j = 65536 * y + s with 0 <= s < 65536, and j = 4096 * q + 64 * x + rr
        let s = j % 65536;
        vstd::arithmetic::div_mod::lemma_fundamental_div_mod(s, 4096);
        let a = s / 4096;
        let t = s % 4096;
        vstd::arithmetic::div_mod::lemma_fundamental_div_mod_converse(j, 4096, 16 * y + a, t);
        assert(t == r);
        let d = j - box_origin(x, y);
        assert(d == 4096 * a + rr);
        vstd::arithmetic::div_mod::lemma_fundamental_div_mod_converse(d, 4096, a, rr);
    }
}

/// Every frame byte belongs to a cell on the screen.
pub proof fn lemma_box_in_range(j: int)
    requires
        0 <= j < DISPLAY_LEN,
    ensures
        0 <= box_col(j) < 64,
        0 <= box_row(j) < 32,
{
}

} // verus!
