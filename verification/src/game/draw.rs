//! Where each mark of a board goes on a screen.

use vstd::prelude::*;
use vstd::string::StringExecFns;
use crate::game::board::{lemma_index_in_grid, Board, BoardState};
use crate::text::{decimal, push_decimal};

verus! {

/// A rectangle of screen cells.
#[derive(Debug, Clone, Copy, PartialEq, Eq, Structural)]
pub struct Area {
    pub x: u16,
    pub y: u16,
    pub width: u16,
    pub height: u16,
}

/// What is written at a place.
#[derive(Debug, Clone, Copy, PartialEq, Eq, Structural)]
pub enum Symbol {
    /// The notice that the board does not fit.
    TooSmall,
    /// The letter above a column.
    Column(u8),
    /// The number before a row, at least two characters wide.
    Row(usize),
    /// An empty cell.
    Point,
    /// The empty cell under the cursor.
    Cursor,
    /// An empty cell that shows by its background how good it is.
    Heat(usize),
    Black,
    White,
    /// A cell with something else in it.
    Unknown,
    /// The mark in the middle of the board.
    Star,
}

/// A symbol and its place.
#[derive(Debug, Clone, Copy, PartialEq, Eq, Structural)]
pub struct Mark {
    pub x: u16,
    pub y: u16,
    pub symbol: Symbol,
}

impl Symbol {
    /// The text of the symbol.
    pub open spec fn shown(self) -> Seq<char> {
        match self {
            Symbol::TooSmall => "Terminal too small — resize and restart"@,
            Symbol::Column(byte) => seq![byte as char],
            Symbol::Row(r) => if r < 10 {
                " "@ + decimal(r as nat)
            } else {
                decimal(r as nat)
            },
            Symbol::Point => "⋅"@,
            Symbol::Cursor => "+"@,
            Symbol::Heat(_) => " "@,
            Symbol::Black => "●"@,
            Symbol::White => "○"@,
            Symbol::Unknown => "?"@,
            Symbol::Star => "╋"@,
        }
    }

    /// The text of the symbol.
    pub fn text(self) -> (text: String)
        ensures
            text@ == self.shown(),
    {
        match self {
            Symbol::TooSmall => "Terminal too small — resize and restart".to_owned(),
            Symbol::Column(byte) => {
                let mut text: String = String::new();
                text.push(byte as char);
                assert(text@ =~= seq![byte as char]);
                text
            },
            Symbol::Row(r) => {
                let mut text: String = if r < 10 {
                    " ".to_owned()
                } else {
                    String::new()
                };
                push_decimal(&mut text, r);
                assert(text@ =~= self.shown());
                text
            },
            Symbol::Point => "⋅".to_owned(),
            Symbol::Cursor => "+".to_owned(),
            Symbol::Heat(_) => " ".to_owned(),
            Symbol::Black => "●".to_owned(),
            Symbol::White => "○".to_owned(),
            Symbol::Unknown => "?".to_owned(),
            Symbol::Star => "╋".to_owned(),
        }
    }
}

/// What a board looks like: the position, the cursor, and which empty cells show a
/// background. `plain` leaves out the cursor, the backgrounds and the star.
pub struct Look {
    pub board: BoardState,
    pub row: int,
    pub col: int,
    pub hot: Seq<bool>,
    pub plain: bool,
}

/// The smallest area that holds the board: three columns for each cell, one row for each
/// cell and a frame.
pub open spec fn needed(size: int) -> (int, int) {
    (size * 3 + 1, size + 2)
}

/// Half of what is left of `extent`, or nothing when the board takes more than that.
pub open spec fn margin(extent: int, taken: int) -> int {
    if extent >= taken {
        (extent - taken) / 2
    } else {
        0
    }
}

/// The upper left corner of the board, which is centred in the area.
pub open spec fn corner(area: Area, size: int) -> (int, int) {
    (
        area.x + margin(area.width as int, needed(size).0),
        area.y + margin(area.height as int, needed(size).1),
    )
}

/// The place of the cell (`row`, `col`).
pub open spec fn place(area: Area, size: int, row: int, col: int) -> (int, int) {
    (corner(area, size).0 + col * 3 + 2, corner(area, size).1 + row + 1)
}

/// `symbol` at the place `at`.
pub open spec fn mark(at: (int, int), symbol: Symbol) -> Mark {
    Mark { x: at.0 as u16, y: at.1 as u16, symbol }
}

impl Look {
    /// The background of the cell with this index is to be shown.
    pub open spec fn is_hot(self, idx: int) -> bool {
        idx < self.hot.len() && self.hot[idx]
    }

    /// The symbol of the cell (`row`, `col`).
    pub open spec fn symbol(self, row: int, col: int) -> Symbol {
        let cell = self.board.rows[row][col];
        let idx = row * self.board.size + col;
        if cell == 1 {
            Symbol::Black
        } else if cell == 2 {
            Symbol::White
        } else if cell != 0 {
            Symbol::Unknown
        } else if self.plain {
            Symbol::Point
        } else if self.row == row && self.col == col {
            Symbol::Cursor
        } else if self.is_hot(idx) {
            Symbol::Heat(idx as usize)
        } else {
            Symbol::Point
        }
    }

    /// The letters above the columns.
    pub open spec fn letters(self, area: Area) -> Seq<Mark> {
        Seq::new(
            self.board.size as nat,
            |c: int|
                mark(
                    (corner(area, self.board.size).0 + c * 3 + 2, corner(area, self.board.size).1),
                    Symbol::Column((65 + c) as u8),
                ),
        )
    }

    /// The number before a row, and its first `cols` cells.
    pub open spec fn line(self, area: Area, row: int, cols: int) -> Seq<Mark> {
        let size = self.board.size;
        seq![
            mark(
                (corner(area, size).0, corner(area, size).1 + row + 1),
                Symbol::Row(row as usize),
            ),
        ] + Seq::new(
            cols as nat,
            |c: int| mark(place(area, size, row, c), self.symbol(row, c)),
        )
    }

    /// The first `rows` rows.
    pub open spec fn lines(self, area: Area, rows: int) -> Seq<Mark>
        decreases rows,
    {
        if rows <= 0 {
            Seq::empty()
        } else {
            self.lines(area, rows - 1) + self.line(area, rows - 1, self.board.size)
        }
    }

    /// The star in the middle, where the cell is empty, shows no background and is not
    /// under the cursor.
    pub open spec fn star(self, area: Area) -> Seq<Mark> {
        let size = self.board.size;
        let half = size / 2;
        if !self.plain && self.board.rows[half][half] == 0 && !(self.row == half && self.col
            == half) && !self.is_hot(half * size + half) {
            seq![mark(place(area, size, half, half), Symbol::Star)]
        } else {
            Seq::empty()
        }
    }

    /// All marks of the board, in the order in which they are drawn.
    pub open spec fn marks(self, area: Area) -> Seq<Mark> {
        self.letters(area) + self.lines(area, self.board.size) + self.star(area)
    }
}

/// The board fits: its letters are bytes, and its places are coordinates.
pub open spec fn drawable(area: Area, size: int) -> bool {
    &&& 0 < size <= 191
    &&& area.x + area.width <= u16::MAX
    &&& area.y + area.height <= u16::MAX
    &&& area.x + needed(size).0 <= u16::MAX
    &&& area.y + needed(size).1 <= u16::MAX
}

fn offset(start: u16, extent: u16, taken: u16) -> (at: u16)
    requires
        start + extent <= u16::MAX,
    ensures
        at == start + margin(extent as int, taken as int),
{
    start + extent.saturating_sub(taken) / 2
}

/// The marks of a board: see `Look`.
pub fn board_marks(
    board: &Board,
    cursor: (usize, usize),
    hot: &Vec<bool>,
    plain: bool,
    area: Area,
) -> (marks: Vec<Mark>)
    requires
        board.wf(),
        drawable(area, board.board_size as int),
    ensures
        marks@ == (Look {
            board: board@,
            row: cursor.0 as int,
            col: cursor.1 as int,
            hot: hot@,
            plain,
        }).marks(area),
{
    let ghost look = Look {
        board: board@,
        row: cursor.0 as int,
        col: cursor.1 as int,
        hot: hot@,
        plain,
    };
    let size: usize = board.board_size;
    let x: u16 = offset(area.x, area.width, (size * 3 + 1) as u16);
    let y: u16 = offset(area.y, area.height, (size + 2) as u16);
    assert((x as int, y as int) == corner(area, size as int));
    let mut marks: Vec<Mark> = Vec::new();
    for c in 0..size
        invariant
            size == board.board_size,
            look.board == board@,
            drawable(area, size as int),
            (x as int, y as int) == corner(area, size as int),
            x + size * 3 + 1 <= u16::MAX,
            marks@ == look.letters(area).take(c as int),
    {
        marks.push(
            Mark { x: x + c as u16 * 3 + 2, y, symbol: Symbol::Column(65 + c as u8) },
        );
        assert(marks@ =~= look.letters(area).take(c + 1));
    }
    let ghost letters = look.letters(area);
    assert(marks@ =~= letters + look.lines(area, 0));
    for r in 0..size
        invariant
            board.wf(),
            size == board.board_size,
            look.board == board@,
            look.row == cursor.0,
            look.col == cursor.1,
            look.hot == hot@,
            look.plain == plain,
            drawable(area, size as int),
            (x as int, y as int) == corner(area, size as int),
            x + size * 3 + 1 <= u16::MAX,
            y + size + 2 <= u16::MAX,
            marks@ == letters + look.lines(area, r as int),
    {
        let ghost before = marks@;
        marks.push(Mark { x, y: y + r as u16 + 1, symbol: Symbol::Row(r) });
        assert(marks@ =~= before + look.line(area, r as int, 0));
        for c in 0..size
            invariant
                board.wf(),
                r < size,
                size == board.board_size,
                look.board == board@,
                look.row == cursor.0,
                look.col == cursor.1,
                look.hot == hot@,
                look.plain == plain,
                drawable(area, size as int),
                (x as int, y as int) == corner(area, size as int),
                x + size * 3 + 1 <= u16::MAX,
                y + size + 2 <= u16::MAX,
                marks@ == before + look.line(area, r as int, c as int),
        {
            proof {
                lemma_index_in_grid(size as int, r as int, c as int);
            }
            let idx: usize = board.pos_to_idx(r, c);
            let cell: u8 = board.get(r, c);
            let symbol = if cell == 1 {
                Symbol::Black
            } else if cell == 2 {
                Symbol::White
            } else if cell != 0 {
                Symbol::Unknown
            } else if plain {
                Symbol::Point
            } else if cursor.0 == r && cursor.1 == c {
                Symbol::Cursor
            } else if idx < hot.len() && hot[idx] {
                Symbol::Heat(idx)
            } else {
                Symbol::Point
            };
            marks.push(Mark { x: x + c as u16 * 3 + 2, y: y + r as u16 + 1, symbol });
            assert(marks@ =~= before + look.line(area, r as int, c + 1));
        }
        assert(marks@ =~= letters + look.lines(area, r + 1));
    }
    let half: usize = size / 2;
    proof {
        lemma_index_in_grid(size as int, half as int, half as int);
    }
    let idx: usize = board.pos_to_idx(half, half);
    if !plain && board.get(half, half) == 0 && !(cursor.0 == half && cursor.1 == half) && !(idx
        < hot.len() && hot[idx]) {
        marks.push(Mark { x: x + half as u16 * 3 + 2, y: y + half as u16 + 1, symbol: Symbol::Star });
    }
    assert(marks@ =~= look.marks(area));
    marks
}

/// The cells of a row stand on one line and those of a column below each other: neighbours are
/// three columns or one line apart. Each letter stands above its column, and each number before
/// its row.
pub proof fn law_cells_are_lined_up(look: Look, area: Area, row: int, col: int)
    requires
        drawable(area, look.board.size),
        0 <= row < look.board.size,
        0 <= col < look.board.size,
    ensures
        ({
            let size = look.board.size;
            let at = place(area, size, row, col);
            &&& place(area, size, row, col + 1) == (at.0 + 3, at.1)
            &&& place(area, size, row + 1, col) == (at.0, at.1 + 1)
            &&& look.letters(area)[col].x == at.0
            &&& look.letters(area)[col].y + row + 1 == at.1
            &&& look.letters(area)[col].symbol == Symbol::Column((65 + col) as u8)
            &&& look.line(area, row, size)[0].x < place(area, size, row, 0).0
            &&& look.line(area, row, size)[0].y == at.1
            &&& look.line(area, row, size)[0].symbol == Symbol::Row(row as usize)
            &&& look.line(area, row, size)[col + 1].x == at.0
            &&& look.line(area, row, size)[col + 1].y == at.1
        }),
{
    let size = look.board.size;
    let cells = Seq::new(
        size as nat,
        |c: int| mark(place(area, size, row, c), look.symbol(row, c)),
    );
    assert(look.line(area, row, size)[col + 1] == cells[col]);
}

/// Where there is room the board stands in the middle: what is left before and after it differs
/// by one at most.
pub proof fn law_board_is_centred(area: Area, size: int)
    requires
        needed(size).0 <= area.width,
        needed(size).1 <= area.height,
    ensures
        ({
            let left = corner(area, size).0 - area.x;
            let right = area.width - needed(size).0 - left;
            let above = corner(area, size).1 - area.y;
            let below = area.height - needed(size).1 - above;
            &&& 0 <= left <= right <= left + 1
            &&& 0 <= above <= below <= above + 1
        }),
{
}

/// The mark starts in the area.
pub open spec fn inside(area: Area, m: Mark) -> bool {
    &&& area.x <= m.x < area.x + area.width
    &&& area.y <= m.y < area.y + area.height
}

/// Where the board fits into the area, every mark starts in it.
pub proof fn law_marks_stay_inside(look: Look, area: Area, i: int)
    requires
        drawable(area, look.board.size),
        needed(look.board.size).0 <= area.width,
        needed(look.board.size).1 <= area.height,
        0 <= i < look.marks(area).len(),
    ensures
        inside(area, look.marks(area)[i]),
{
    let size = look.board.size;
    let letters = look.letters(area);
    let lines = look.lines(area, size);
    if i < letters.len() {
        assert(look.marks(area)[i] == letters[i]);
    } else if i < letters.len() + lines.len() {
        let k = i - letters.len();
        assert(look.marks(area)[i] == lines[k]);
        lemma_lines_inside(look, area, size, k);
    } else {
        assert(look.marks(area)[i] == look.star(area)[i - letters.len() - lines.len()]);
    }
}

proof fn lemma_lines_inside(look: Look, area: Area, rows: int, k: int)
    requires
        drawable(area, look.board.size),
        needed(look.board.size).0 <= area.width,
        needed(look.board.size).1 <= area.height,
        0 <= rows <= look.board.size,
        0 <= k < look.lines(area, rows).len(),
    ensures
        inside(area, look.lines(area, rows)[k]),
    decreases rows,
{
    let before = look.lines(area, rows - 1);
    let last = look.line(area, rows - 1, look.board.size);
    if rows > 0 {
        if k < before.len() {
            lemma_lines_inside(look, area, rows - 1, k);
            assert(look.lines(area, rows)[k] == before[k]);
        } else {
            assert(look.lines(area, rows)[k] == last[k - before.len()]);
        }
    }
}

} // verus!
