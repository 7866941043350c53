//! The `World` type: a rectangular grid of characters, one of which marks a free cell.
use vstd::prelude::*;

use crate::text::{
    chars_of, decimal_value, is_count, line_ends_of, lines_of, parse_count, split_lines, views,
};

verus! {

/// The abstract content of a `World`.
pub ghost struct Grid {
    /// The rows, top to bottom, each a sequence of cells from left to right.
    pub cells: Seq<Seq<char>>,
    pub height: nat,
    pub width: nat,
    /// The character that marks a free cell.
    pub empty: char,
    /// The line break that followed each row in the text the grid was read from: `\n`,
    /// `\r\n`, or nothing after a last row that had none.
    pub line_ends: Seq<Seq<char>>,
}

impl Grid {
    /// The grid is rectangular, with one line break per row, and `.` marks its free cells.
    pub open spec fn well_formed(self) -> bool {
        &&& self.empty == '.'
        &&& self.cells.len() == self.height
        &&& self.line_ends.len() == self.height
        &&& forall|i: int| 0 <= i < self.height ==> #[trigger] self.cells[i].len() == self.width
    }

    /// The cell at row `r`, column `c` lies in the grid and is free.
    pub open spec fn is_free(self, r: int, c: int) -> bool {
        &&& 0 <= r < self.height
        &&& 0 <= c < self.width
        &&& self.cells[r][c] == self.empty
    }
}

/// Why a text does not describe a grid.
#[derive(Debug, Clone, Copy, PartialEq, Eq, Structural)]
pub enum WorldError {
    /// The text is empty, or its first line is not a decimal count that fits in a `usize`.
    MissingLineCount,
    /// The grid row with this index (0 for the line right after the count) is not as long as
    /// the first grid row.
    RowLengthMismatch(usize),
    /// The text has this many grid rows (first) where its first line announced the second.
    RowCountMismatch(usize, usize),
}

/// All of `rows` are as long as the first.
pub open spec fn same_widths(rows: Seq<Seq<char>>) -> bool {
    forall|i: int| 0 <= i < rows.len() ==> #[trigger] rows[i].len() == rows[0].len()
}

/// Row `j` is the first of `rows` whose length differs from that of the first row.
pub open spec fn first_ragged_row(rows: Seq<Seq<char>>, j: int) -> bool {
    &&& 0 < j < rows.len()
    &&& rows[j].len() != rows[0].len()
    &&& forall|i: int| 0 <= i < j ==> #[trigger] rows[i].len() == rows[0].len()
}

/// What reading the text `t` gives: for each error the texts that cause it, and otherwise the
/// grid whose rows are the lines after the first.
pub open spec fn read_outcome(t: Seq<char>, r: Result<World, WorldError>) -> bool {
    let ls = lines_of(t);
    let rows = ls.drop_first();
    match r {
        Err(WorldError::MissingLineCount) => ls.len() == 0 || !is_count(ls[0]),
        Err(WorldError::RowLengthMismatch(j)) => {
            &&& ls.len() > 0
            &&& is_count(ls[0])
            &&& first_ragged_row(rows, j as int)
        },
        Err(WorldError::RowCountMismatch(found, expected)) => {
            &&& ls.len() > 0
            &&& is_count(ls[0])
            &&& same_widths(rows)
            &&& found == rows.len()
            &&& expected == decimal_value(ls[0])
            &&& found != expected
        },
        Ok(w) => {
            &&& ls.len() > 0
            &&& is_count(ls[0])
            &&& same_widths(rows)
            &&& rows.len() == decimal_value(ls[0])
            &&& w@.cells == rows
            &&& w@.height == rows.len()
            &&& w@.width == (if rows.len() > 0 {
                rows[0].len()
            } else {
                0
            })
            &&& w@.empty == '.'
            &&& w@.line_ends == line_ends_of(t).drop_first()
        },
    }
}

/// A rectangular grid of characters; `.` marks a free cell, anything else an occupied one.
pub struct World {
    rows: Vec<Vec<char>>,
    empty_char: char,
    width: usize,
    height: usize,
    line_ends: Vec<Vec<char>>,
}

impl View for World {
    type V = Grid;

    closed spec fn view(&self) -> Grid {
        Grid {
            cells: views(self.rows@),
            height: self.height as nat,
            width: self.width as nat,
            empty: self.empty_char,
            line_ends: views(self.line_ends@),
        }
    }
}

impl World {
    #[verifier::type_invariant]
    closed spec fn rectangular(self) -> bool {
        &&& self.rows@.len() == self.height
        &&& self.line_ends@.len() == self.height
        &&& forall|i: int| 0 <= i < self.rows@.len() ==> #[trigger] self.rows@[i]@.len() == self.width
        &&& self.empty_char == '.'
    }

    /// Reads a grid from its text: a first line holding the number of rows, then the rows, one
    /// per line, all of the same length.
    pub fn new(world: String) -> (r: Result<World, WorldError>)
        ensures
            read_outcome(world@, r),
    {
        let text = chars_of(&world);
        let (mut lines, mut ends) = split_lines(&text);
        let ghost ls = lines_of(world@);
        proof {
            crate::text::lemma_lines_rejoin(world@);
        }
        if lines.len() == 0 {
            return Err(WorldError::MissingLineCount);
        }
        assert(views(lines@)[0] == lines@[0]@);
        let expected = match parse_count(&lines[0]) {
            None => return Err(WorldError::MissingLineCount),
            Some(n) => n,
        };
        lines.remove(0);
        ends.remove(0);
        assert(views(lines@) =~= ls.drop_first());
        assert(views(ends@) =~= line_ends_of(world@).drop_first());
        let ghost rows = ls.drop_first();
        let n = lines.len();
        if n > 0 {
            let w = lines[0].len();
            let mut i: usize = 1;
            while i < n
                invariant
                    n == lines@.len() == rows.len(),
                    ls == lines_of(world@),
                    ls.len() > 0,
                    is_count(ls[0]),
                    rows == ls.drop_first(),
                    views(lines@) == rows,
                    1 <= i <= n,
                    w == rows[0].len(),
                    forall|k: int| 0 <= k < i ==> #[trigger] rows[k].len() == rows[0].len(),
                decreases n - i,
            {
                assert(views(lines@)[i as int] == lines@[i as int]@);
                if lines[i].len() != w {
                    return Err(WorldError::RowLengthMismatch(i));
                }
                i += 1;
            }
        }
        if n != expected {
            return Err(WorldError::RowCountMismatch(n, expected));
        }
        let width: usize = if n > 0 {
            lines[0].len()
        } else {
            0
        };
        assert forall|k: int| 0 <= k < lines@.len() implies #[trigger] lines@[k]@.len() == width by {
            assert(views(lines@)[k] == lines@[k]@);
            assert(views(lines@)[0] == lines@[0]@);
        }
        let world = World { rows: lines, empty_char: '.', width, height: n, line_ends: ends };
        assert(world@.cells =~= rows);
        Ok(world)
    }

    proof fn lemma_well_formed(&self)
        requires
            self.rectangular(),
        ensures
            self@.well_formed(),
    {
        assert forall|i: int| 0 <= i < self@.height implies #[trigger] self@.cells[i].len() == self@.width by {
            assert(self@.cells[i] == self.rows@[i]@);
        }
    }

    /// Number of rows.
    pub fn height(&self) -> (h: usize)
        ensures
            h == self@.height,
            self@.well_formed(),
    {
        proof {
            use_type_invariant(self);
            self.lemma_well_formed();
        }
        self.height
    }

    /// Number of columns.
    pub fn width(&self) -> (w: usize)
        ensures
            w == self@.width,
            self@.well_formed(),
    {
        proof {
            use_type_invariant(self);
            self.lemma_well_formed();
        }
        self.width
    }

    /// The character at row `r`, column `c`.
    pub(crate) fn at(&self, r: usize, c: usize) -> (ch: char)
        requires
            r < self@.height,
            c < self@.width,
        ensures
            ch == self@.cells[r as int][c as int],
            self@.empty == '.',
    {
        proof {
            use_type_invariant(self);
        }
        self.rows[r][c]
    }

    /// The line break that followed row `r`.
    pub(crate) fn line_end(&self, r: usize) -> (e: &Vec<char>)
        requires
            r < self@.height,
        ensures
            e@ == self@.line_ends[r as int],
    {
        proof {
            use_type_invariant(self);
        }
        &self.line_ends[r]
    }

    /// Whether row `r`, column `c` is a free cell.
    pub(crate) fn free_at(&self, r: usize, c: usize) -> (b: bool)
        requires
            r < self@.height,
            c < self@.width,
        ensures
            b == self@.is_free(r as int, c as int),
    {
        proof {
            use_type_invariant(self);
        }
        self.rows[r][c] == self.empty_char
    }
}

} // verus!
