//! Minesweeper fields: reading a field from text and numbering each free
//! cell with the mines around it.

use vstd::prelude::*;
use crate::decimal::{parse_bounded, parse_unsigned};
use crate::fragment::views;
use crate::text::{decimal_digits, push_char, push_decimal, split_words, whitespace_words};

verus! {

/// One cell of a field.
#[derive(Clone, Copy, Debug, PartialEq, Eq, Structural)]
pub enum Cell {
    Empty,
    Mine,
    /// A free cell with this many mines among its (up to eight) neighbours.
    Number(u8),
}

/// A field of `height` rows of `width` cells, row after row.
#[derive(Clone, Debug, PartialEq, Eq)]
pub struct Field {
    pub width: usize,
    pub height: usize,
    pub cells: Vec<Cell>,
}

/// The cell that a symbol of the text form stands for.
pub open spec fn cell_of(c: char) -> Option<Cell> {
    if c == '*' {
        Some(Cell::Mine)
    } else if c == '.' {
        Some(Cell::Empty)
    } else {
        None
    }
}

pub open spec fn unknown_symbol_message(c: char) -> Seq<char> {
    "Unknown character "@.push(c)
}

/// The symbol a cell is shown with: a space for an unnumbered free cell,
/// `*` for a mine, the digit for a numbered cell.
pub open spec fn symbol_of(c: Cell) -> char {
    match c {
        Cell::Empty => ' ',
        Cell::Mine => '*',
        Cell::Number(n) => (n as nat + '0' as nat) as char,
    }
}

/// A cell that can be shown: a number is a single digit.
pub open spec fn showable(c: Cell) -> bool {
    c matches Cell::Number(n) ==> n < 10
}

impl Cell {
    /// The symbol this cell is shown with (see `symbol_of`).
    pub fn symbol(&self) -> (r: char)
        requires
            showable(*self),
        ensures
            r == symbol_of(*self),
    {
        match self {
            Cell::Empty => ' ',
            Cell::Mine => '*',
            Cell::Number(n) => match *n {
                0 => '0',
                1 => '1',
                2 => '2',
                3 => '3',
                4 => '4',
                5 => '5',
                6 => '6',
                7 => '7',
                8 => '8',
                _ => '9',
            },
        }
    }
    /// The cell for `*` (a mine) or `.` (a free cell).
    pub fn from_symbol(value: char) -> (r: Result<Cell, String>)
        ensures
            match cell_of(value) {
                Some(c) => r == Ok::<Cell, String>(c),
                None => r matches Err(e) && e@ == unknown_symbol_message(value),
            },
    {
        if value == '*' {
            Ok(Cell::Mine)
        } else if value == '.' {
            Ok(Cell::Empty)
        } else {
            let mut e = String::from_str("Unknown character ");
            push_char(&mut e, value);
            Err(e)
        }
    }
}

/// The field's cells fill exactly `height` rows of `width`.
pub open spec fn field_wf(width: usize, height: usize, n: nat) -> bool {
    n == width as nat * height as nat
}

/// Whether `(r, c)` lies on the field and holds a mine.
pub open spec fn is_mine_at(f: Field, r: int, c: int) -> bool {
    &&& 0 <= r < f.height
    &&& 0 <= c < f.width
    &&& f.cells@[r * f.width + c] is Mine
}

pub open spec fn mine_ind(f: Field, r: int, c: int) -> nat {
    if is_mine_at(f, r, c) { 1 } else { 0 }
}

/// The number of mines among the eight neighbours of `(r, c)`.
pub open spec fn mines_around(f: Field, r: int, c: int) -> nat {
    mine_ind(f, r - 1, c - 1) + mine_ind(f, r - 1, c) + mine_ind(f, r - 1, c + 1) + mine_ind(f, r, c - 1)
        + mine_ind(f, r, c + 1) + mine_ind(f, r + 1, c - 1) + mine_ind(f, r + 1, c) + mine_ind(
        f,
        r + 1,
        c + 1,
    )
}

/// What cell `i` shows once the field is solved: mines stay mines, every
/// other cell counts the mines around it.
pub open spec fn solved_cell(f: Field, i: int) -> Cell {
    if f.cells@[i] is Mine {
        Cell::Mine
    } else {
        Cell::Number(mines_around(f, i / f.width as int, i % f.width as int) as u8)
    }
}

proof fn lemma_cell_index(r: int, c: int, w: int, h: int)
    requires
        0 <= r < h,
        0 <= c < w,
    ensures
        0 <= r * w + c < w * h,
{
    assert(r * w + c < w * h) by (nonlinear_arith)
        requires
            0 <= r < h,
            0 <= c < w,
    ;
    assert(0 <= r * w) by (nonlinear_arith)
        requires
            0 <= r,
            0 <= w,
    ;
}

impl Field {
    pub open spec fn wf(&self) -> bool {
        field_wf(self.width, self.height, self.cells@.len())
    }

    /// 1 when the neighbour at offset `(dr - 1, dc - 1)` of `(row, col)` is
    /// on the field and holds a mine, else 0.
    fn neighbour_mine(&self, row: usize, col: usize, dr: usize, dc: usize) -> (r: u8)
        requires
            self.wf(),
            row < self.height,
            col < self.width,
            dr <= 2,
            dc <= 2,
        ensures
            r as nat == mine_ind(*self, row + dr - 1, col + dc - 1),
    {
        if (dr == 0 && row == 0) || (dc == 0 && col == 0) {
            return 0;
        }
        let r = if dr == 0 { row - 1 } else { row + (dr - 1) };
        let c = if dc == 0 { col - 1 } else { col + (dc - 1) };
        if r >= self.height || c >= self.width {
            return 0;
        }
        let len = self.cells.len();
        proof {
            lemma_cell_index(r as int, c as int, self.width as int, self.height as int);
            assert(r * self.width + c < len);
        }
        match self.cells[r * self.width + c] {
            Cell::Mine => 1,
            _ => 0,
        }
    }

    /// The solved form of cell `idx` (see `solved_cell`).
    pub fn solve_cell(&self, idx: usize) -> (r: Cell)
        requires
            self.wf(),
            idx < self.cells@.len(),
        ensures
            r == solved_cell(*self, idx as int),
    {
        if let Cell::Mine = self.cells[idx] {
            return Cell::Mine;
        }
        assert(self.width > 0) by (nonlinear_arith)
            requires
                idx < self.width as nat * self.height as nat,
        ;
        let (row, col) = (idx / self.width, idx % self.width);
        assert(row < self.height) by (nonlinear_arith)
            requires
                idx < self.width as nat * self.height as nat,
                row == idx / self.width,
                self.width > 0,
        ;
        let n = self.neighbour_mine(row, col, 0, 0) + self.neighbour_mine(row, col, 0, 1)
            + self.neighbour_mine(row, col, 0, 2) + self.neighbour_mine(row, col, 1, 0)
            + self.neighbour_mine(row, col, 1, 2) + self.neighbour_mine(row, col, 2, 0)
            + self.neighbour_mine(row, col, 2, 1) + self.neighbour_mine(row, col, 2, 2);
        Cell::Number(n)
    }

    /// The field with every free cell numbered by the mines around it.
    pub fn solve(&self) -> (r: Field)
        requires
            self.wf(),
        ensures
            r.width == self.width,
            r.height == self.height,
            r.cells@.len() == self.cells@.len(),
            forall|i: int| 0 <= i < r.cells@.len() ==> #[trigger] r.cells@[i] == solved_cell(*self, i),
    {
        let mut cells: Vec<Cell> = Vec::new();
        let mut i: usize = 0;
        while i < self.cells.len()
            invariant
                self.wf(),
                i <= self.cells@.len(),
                cells@.len() == i,
                forall|k: int| 0 <= k < i ==> #[trigger] cells@[k] == solved_cell(*self, k),
            decreases self.cells@.len() - i,
        {
            cells.push(self.solve_cell(i));
            i = i + 1;
        }
        Field { width: self.width, height: self.height, cells }
    }
}

/// The position of the first word at or after `i` that is not a size, or
/// `ws.len()`.
pub open spec fn first_non_size(ws: Seq<Seq<char>>, i: int) -> int
    decreases ws.len() - i,
{
    if i >= ws.len() {
        ws.len() as int
    } else if parse_unsigned(ws[i], usize::MAX as nat).is_none() {
        i
    } else {
        first_non_size(ws, i + 1)
    }
}

pub open spec fn not_a_size_message(w: Seq<char>) -> Seq<char> {
    "Expected numbers on sizes but got an \""@ + w + "\"."@
}

pub open spec fn size_count_message(n: nat) -> Seq<char> {
    "Expected 2 arguments: width and height, found: "@ + decimal_digits(n) + "."@
}

/// Width and height from the words of a field's first line.
pub open spec fn sizes_spec(ws: Seq<Seq<char>>) -> Result<(usize, usize), Seq<char>> {
    let bad = first_non_size(ws, 0);
    if bad < ws.len() {
        Err(not_a_size_message(ws[bad]))
    } else if ws.len() != 2 {
        Err(size_count_message(ws.len()))
    } else {
        match (parse_unsigned(ws[0], usize::MAX as nat), parse_unsigned(ws[1], usize::MAX as nat)) {
            (Some(w), Some(h)) => Ok((w as usize, h as usize)),
            _ => Err(seq![]),
        }
    }
}

pub open spec fn sizes_view(r: Result<(usize, usize), String>) -> Result<(usize, usize), Seq<char>> {
    match r {
        Ok(p) => Ok(p),
        Err(e) => Err(e@),
    }
}

/// The line `line` (1-based) of symbols `l` does not have `width` symbols.
pub open spec fn width_message(width: nat, found: nat, line: nat) -> Seq<char> {
    "Expected width "@ + decimal_digits(width) + ", found "@ + decimal_digits(found) + " on line "@
        + decimal_digits(line)
}

pub open spec fn symbol_message(c: char, line: nat, index: nat) -> Seq<char> {
    "Expected symbols '.' or '*', found: "@.push(c) + " on line "@ + decimal_digits(line)
        + " with index "@ + decimal_digits(index)
}

/// The position of the first character at or after `j` that is neither `*`
/// nor `.`, or `l.len()`.
pub open spec fn first_bad_symbol(l: Seq<char>, j: int) -> int
    decreases l.len() - j,
{
    if j >= l.len() {
        l.len() as int
    } else if cell_of(l[j]).is_none() {
        j
    } else {
        first_bad_symbol(l, j + 1)
    }
}

/// What is wrong with row line `line` (1-based), if anything.
pub open spec fn row_error(l: Seq<char>, width: nat, line: nat) -> Option<Seq<char>> {
    if l.len() != width {
        Some(width_message(width, l.len(), line))
    } else {
        let j = first_bad_symbol(l, 0);
        if j < l.len() {
            Some(symbol_message(l[j], line, (j + 1) as nat))
        } else {
            None
        }
    }
}

/// The first error among lines `i..` of `ls`.
pub open spec fn rows_error(ls: Seq<Seq<char>>, width: nat, i: int) -> Option<Seq<char>>
    decreases ls.len() - i,
{
    if i >= ls.len() || i < 0 {
        None
    } else {
        match row_error(ls[i], width, i as nat) {
            Some(e) => Some(e),
            None => rows_error(ls, width, i + 1),
        }
    }
}

pub open spec fn row_cells(l: Seq<char>) -> Seq<Cell> {
    l.map_values(|c: char| if c == '*' { Cell::Mine } else { Cell::Empty })
}

/// The cells of lines `i..` of `ls`, row after row.
pub open spec fn rows_cells(ls: Seq<Seq<char>>, i: int) -> Seq<Cell>
    decreases ls.len() - i,
{
    if i >= ls.len() || i < 0 {
        seq![]
    } else {
        row_cells(ls[i]) + rows_cells(ls, i + 1)
    }
}

/// A field from its text: a line with width and height, then one line of
/// `*` and `.` per row. A row's width is counted in characters, and the
/// first error met, line by line, is the one reported.
pub open spec fn field_spec(ls: Seq<Seq<char>>) -> Result<(usize, usize, Seq<Cell>), Seq<char>> {
    if ls.len() == 0 {
        Err("Couldn't get field sizes."@)
    } else {
        match sizes_spec(whitespace_words(ls[0])) {
            Err(e) => Err(e),
            Ok((w, h)) => if ls.len() - 1 != h {
                Err(
                    "Lines count missmatches, expected: "@ + decimal_digits(h as nat) + ", found: "@
                        + decimal_digits((ls.len() - 1) as nat) + "."@,
                )
            } else {
                match rows_error(ls, w as nat, 1) {
                    Some(e) => Err(e),
                    None => Ok((w, h, rows_cells(ls, 1))),
                }
            },
        }
    }
}

pub open spec fn field_view(r: Result<Field, String>) -> Result<(usize, usize, Seq<Cell>), Seq<char>> {
    match r {
        Ok(f) => Ok((f.width, f.height, f.cells@)),
        Err(e) => Err(e@),
    }
}

proof fn lemma_rows_cells_len(ls: Seq<Seq<char>>, width: nat, i: int)
    requires
        1 <= i <= ls.len(),
        rows_error(ls, width, i).is_none(),
    ensures
        rows_cells(ls, i).len() == (ls.len() - i) * width,
    decreases ls.len() - i,
{
    if i < ls.len() {
        lemma_rows_cells_len(ls, width, i + 1);
        assert((ls.len() - i) * width == width + (ls.len() - (i + 1)) * width) by (nonlinear_arith);
    } else {
        assert((ls.len() - i) * width == 0) by (nonlinear_arith)
            requires
                ls.len() - i == 0,
        ;
    }
}

impl Field {
    /// Width and height from the words of a field's first line: every word
    /// must be a number, and there must be exactly two.
    pub fn sizes_from_words(words: &Vec<String>) -> (r: Result<(usize, usize), String>)
        ensures
            sizes_view(r) == sizes_spec(views(words@)),
    {
        let ghost ws = views(words@);
        let mut numbers: Vec<usize> = Vec::new();
        let mut i: usize = 0;
        while i < words.len()
            invariant
                i <= words@.len(),
                ws == views(words@),
                first_non_size(ws, 0) == first_non_size(ws, i as int),
                numbers@.len() == i,
                forall|k: int| 0 <= k < i ==> parse_unsigned(#[trigger] ws[k], usize::MAX as nat)
                    == Some(numbers@[k] as nat),
            decreases words@.len() - i,
        {
            match parse_bounded(words[i].as_str(), usize::MAX as u64) {
                Some(v) => {
                    numbers.push(v as usize);
                },
                None => {
                    let e = String::from_str("Expected numbers on sizes but got an \"").concat(
                        words[i].as_str(),
                    ).concat("\".");
                    return Err(e);
                },
            }
            i = i + 1;
        }
        if numbers.len() != 2 {
            let mut e = String::from_str("Expected 2 arguments: width and height, found: ");
            push_decimal(&mut e, numbers.len() as u64);
            let e = e.concat(".");
            return Err(e);
        }
        Ok((numbers[0], numbers[1]))
    }

    /// Width and height from a field's first line.
    pub fn read_sizes(value: &str) -> (r: Result<(usize, usize), String>)
        ensures
            sizes_view(r) == sizes_spec(whitespace_words(value@)),
    {
        let words = split_words(value);
        Field::sizes_from_words(&words)
    }

    /// Reads a field from its lines (see `field_spec`); a field read
    /// successfully is well-formed.
    pub fn from_lines(value: &Vec<String>) -> (r: Result<Field, String>)
        ensures
            field_view(r) == field_spec(views(value@)),
            r matches Ok(f) ==> f.wf(),
    {
        let ghost ls = views(value@);
        if value.len() == 0 {
            return Err(String::from_str("Couldn't get field sizes."));
        }
        let (width, height) = match Field::read_sizes(value[0].as_str()) {
            Ok(p) => p,
            Err(e) => {
                return Err(e);
            },
        };
        if value.len() - 1 != height {
            let mut e = String::from_str("Lines count missmatches, expected: ");
            push_decimal(&mut e, height as u64);
            e = e.concat(", found: ");
            push_decimal(&mut e, (value.len() - 1) as u64);
            return Err(e.concat("."));
        }
        let mut cells: Vec<Cell> = Vec::new();
        let mut k: usize = 1;
        while k < value.len()
            invariant
                1 <= k <= value@.len(),
                ls == views(value@),
                ls.len() == value@.len(),
                value@.len() - 1 == height,
                sizes_spec(whitespace_words(ls[0])) == Ok::<(usize, usize), Seq<char>>((width, height)),
                rows_error(ls, width as nat, 1) == rows_error(ls, width as nat, k as int),
                cells@ + rows_cells(ls, k as int) == rows_cells(ls, 1),
            decreases value@.len() - k,
        {
            let line = value[k].as_str();
            let n = line.unicode_len();
            assert(rows_error(ls, width as nat, k as int) == match row_error(ls[k as int], width as nat, k as nat) {
                Some(e) => Some(e),
                None => rows_error(ls, width as nat, k + 1),
            });
            if n != width {
                let mut e = String::from_str("Expected width ");
                push_decimal(&mut e, width as u64);
                e = e.concat(", found ");
                push_decimal(&mut e, n as u64);
                e = e.concat(" on line ");
                push_decimal(&mut e, k as u64);
                return Err(e);
            }
            let ghost before = cells@;
            let mut j: usize = 0;
            while j < n
                invariant
                    j <= n,
                    1 <= k < ls.len(),
                    ls == views(value@),
                    ls.len() == value@.len(),
                    value@.len() - 1 == height,
                    sizes_spec(whitespace_words(ls[0])) == Ok::<(usize, usize), Seq<char>>((width, height)),
                    n == width,
                    rows_error(ls, width as nat, 1) == rows_error(ls, width as nat, k as int),
                    rows_error(ls, width as nat, k as int) == match row_error(ls[k as int], width as nat, k as nat) {
                        Some(e) => Some(e),
                        None => rows_error(ls, width as nat, k + 1),
                    },
                    n == line@.len(),
                    line@ == ls[k as int],
                    first_bad_symbol(line@, 0) == first_bad_symbol(line@, j as int),
                    cells@ == before + row_cells(line@).take(j as int),
                decreases n - j,
            {
                let c = line.get_char(j);
                match Cell::from_symbol(c) {
                    Ok(cell) => {
                        cells.push(cell);
                        proof {
                            assert(row_cells(line@).take(j + 1) =~= row_cells(line@).take(j as int).push(cell));
                            assert(cells@ =~= before + row_cells(line@).take(j + 1));
                        }
                    },
                    Err(_) => {
                        let mut e = String::from_str("Expected symbols '.' or '*', found: ");
                        push_char(&mut e, c);
                        e = e.concat(" on line ");
                        push_decimal(&mut e, k as u64);
                        e = e.concat(" with index ");
                        push_decimal(&mut e, (j + 1) as u64);
                        return Err(e);
                    },
                }
                j = j + 1;
            }
            proof {
                assert(row_cells(line@).take(j as int) =~= row_cells(line@));
                assert(cells@ + rows_cells(ls, k + 1) =~= before + rows_cells(ls, k as int));
            }
            k = k + 1;
        }
        proof {
            assert(cells@ =~= rows_cells(ls, 1));
            lemma_rows_cells_len(ls, width as nat, 1);
        }
        Ok(Field { width, height, cells })
    }
}

/// The text of the first `n` cells of rows of `width`: each cell's symbol,
/// with a line break before every row but the first.
pub open spec fn render_prefix(cells: Seq<Cell>, width: nat, n: nat) -> Seq<char>
    decreases n,
{
    if n == 0 {
        seq![]
    } else {
        let i = (n - 1) as nat;
        let sep: Seq<char> = if i > 0 && i % width == 0 { seq!['\n'] } else { seq![] };
        render_prefix(cells, width, i) + sep + seq![symbol_of(cells[i as int])]
    }
}

impl Field {
    /// The field as text: one line of symbols per row.
    pub fn render(&self) -> (r: String)
        requires
            self.width > 0,
            forall|i: int| 0 <= i < self.cells@.len() ==> showable(#[trigger] self.cells@[i]),
        ensures
            r@ == render_prefix(self.cells@, self.width as nat, self.cells@.len()),
    {
        let mut out = String::new();
        let mut i: usize = 0;
        while i < self.cells.len()
            invariant
                i <= self.cells@.len(),
                self.width > 0,
                forall|k: int| 0 <= k < self.cells@.len() ==> showable(#[trigger] self.cells@[k]),
                out@ == render_prefix(self.cells@, self.width as nat, i as nat),
            decreases self.cells@.len() - i,
        {
            if i > 0 && i % self.width == 0 {
                push_char(&mut out, '\n');
            }
            let c = self.cells[i].symbol();
            push_char(&mut out, c);
            proof {
                assert(out@ =~= render_prefix(self.cells@, self.width as nat, (i + 1) as nat));
            }
            i = i + 1;
        }
        out
    }
}

impl TryFrom<Vec<String>> for Field {
    type Error = String;

    fn try_from(value: Vec<String>) -> (r: Result<Field, String>)
        ensures
            field_view(r) == field_spec(views(value@)),
    {
        Field::from_lines(&value)
    }
}

impl vstd::std_specs::convert::TryFromSpecImpl<Vec<String>> for Field {
    open spec fn obeys_try_from_spec() -> bool {
        false
    }

    open spec fn try_from_spec(v: Vec<String>) -> Result<Field, String> {
        arbitrary()
    }
}

} // verus!
