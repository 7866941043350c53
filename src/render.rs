//! Drawing a grid as text, with a square marked on it.
use vstd::prelude::*;

use crate::grid::{read_outcome, Grid, World};
use crate::search::scanned_before;
use crate::square::Square;
use crate::text::{after_first_line, joined, line_ends_of, lines_of, lemma_first_line_split};

verus! {

/// The character that marks the cells of a square, when no cell of the grid holds it.
pub const MARKER: char = 'x';

/// Number of `u32` values below which every character code lies.
const CODE_LIMIT: u32 = 0x110000;

/// The smallest code tried as a marker when `MARKER` cannot serve: `!`, the first printable
/// character after the space.
pub const FIRST_MARKER_CODE: u32 = 0x21;

/// Some cell of the grid holds `c`.
pub open spec fn occurs(g: Grid, c: char) -> bool {
    exists|i: int, j: int| 0 <= i < g.height && 0 <= j < g.width && #[trigger] g.cells[i][j] == c
}

/// `m` can mark cells: it is neither the free-cell character nor held by any cell.
pub open spec fn can_mark(g: Grid, m: char) -> bool {
    m != g.empty && !occurs(g, m)
}

/// `m` can mark cells and has a code of at least `FIRST_MARKER_CODE`, and no character with a
/// code from there up to that of `m` can.
pub open spec fn is_lowest_marker(g: Grid, m: char) -> bool {
    &&& can_mark(g, m)
    &&& FIRST_MARKER_CODE <= (m as u32)
    &&& forall|c: char| FIRST_MARKER_CODE <= (c as u32) < (m as u32) ==> !#[trigger] can_mark(g, c)
}

/// The marker used on the grid: `MARKER` when it can mark, otherwise the character of smallest
/// code from `FIRST_MARKER_CODE` up that can; `None` when each of those is the free character
/// or held by some cell.
pub open spec fn chosen_marker(g: Grid) -> Option<char> {
    if can_mark(g, MARKER) {
        Some(MARKER)
    } else if exists|m: char| is_lowest_marker(g, m) {
        Some(choose|m: char| is_lowest_marker(g, m))
    } else {
        None
    }
}

/// Row `i`, column `j` lies in the square `s`.
pub open spec fn in_square(s: Square, i: int, j: int) -> bool {
    s.y <= i < s.y + s.size && s.x <= j < s.x + s.size
}

/// The character drawn for row `i`, column `j`: the marker inside the marked square, the cell
/// otherwise.
pub open spec fn drawn_cell(g: Grid, marked: Option<(Square, char)>, i: int, j: int) -> char {
    match marked {
        Some((s, m)) => if in_square(s, i, j) {
            m
        } else {
            g.cells[i][j]
        },
        None => g.cells[i][j],
    }
}

/// The characters drawn for row `i`.
pub open spec fn drawn_row(g: Grid, marked: Option<(Square, char)>, i: int) -> Seq<char> {
    Seq::new(g.width, |j: int| drawn_cell(g, marked, i, j))
}

/// The drawn rows, top to bottom.
pub open spec fn drawn_rows(g: Grid, marked: Option<(Square, char)>) -> Seq<Seq<char>> {
    Seq::new(g.height, |i: int| drawn_row(g, marked, i))
}

/// The drawing of the grid: each drawn row followed by the line break it had in the text.
pub open spec fn drawing(g: Grid, marked: Option<(Square, char)>) -> Seq<char> {
    joined(drawn_rows(g, marked), g.line_ends)
}

/// Some cell scanned before row `a`, column `b` holds the character of code `k`.
pub open spec fn code_seen(g: Grid, k: int, a: int, b: int) -> bool {
    exists|i: int, j: int| #[trigger] scanned_before(g, i, j, a, b) && g.cells[i][j] as u32 == k
}

proof fn lemma_code_seen_step(g: Grid, k: int, a: int, b: int)
    requires
        0 <= a < g.height,
        0 <= b < g.width,
    ensures
        code_seen(g, k, a, b + 1) == (code_seen(g, k, a, b) || g.cells[a][b] as u32 == k),
{
    if code_seen(g, k, a, b + 1) {
        let (i, j) = choose|i: int, j: int| #[trigger] scanned_before(g, i, j, a, b + 1) && g.cells[i][j] as u32 == k;
        if !(i == a && j == b) {
            assert(scanned_before(g, i, j, a, b));
        }
    }
    if code_seen(g, k, a, b) {
        let (i, j) = choose|i: int, j: int| #[trigger] scanned_before(g, i, j, a, b) && g.cells[i][j] as u32 == k;
        assert(scanned_before(g, i, j, a, b + 1));
    }
    if g.cells[a][b] as u32 == k {
        assert(scanned_before(g, a, b, a, b + 1));
    }
}

proof fn lemma_code_seen_row(g: Grid, k: int, a: int)
    ensures
        code_seen(g, k, a + 1, 0) == code_seen(g, k, a, g.width as int),
{
    if code_seen(g, k, a + 1, 0) {
        let (i, j) = choose|i: int, j: int| #[trigger] scanned_before(g, i, j, a + 1, 0) && g.cells[i][j] as u32 == k;
        assert(scanned_before(g, i, j, a, g.width as int));
    }
    if code_seen(g, k, a, g.width as int) {
        let (i, j) = choose|i: int, j: int| #[trigger] scanned_before(g, i, j, a, g.width as int) && g.cells[i][j] as u32 == k;
        assert(scanned_before(g, i, j, a + 1, 0));
    }
}

/// Each character has its own code, and that code lies outside the surrogates and below
/// `0x110000`.
proof fn lemma_char_code(c: char, d: char)
    ensures
        (c as u32) < CODE_LIMIT,
        !(0xD800 <= (c as u32) < 0xE000),
        c as u32 == d as u32 ==> c == d,
{
}

proof fn lemma_code_seen_all(g: Grid, c: char)
    ensures
        code_seen(g, c as u32 as int, g.height as int, 0) == occurs(g, c),
{
    if occurs(g, c) {
        let (i, j) = choose|i: int, j: int| 0 <= i < g.height && 0 <= j < g.width && #[trigger] g.cells[i][j] == c;
        assert(scanned_before(g, i, j, g.height as int, 0));
    }
    if code_seen(g, c as u32 as int, g.height as int, 0) {
        let (i, j) = choose|i: int, j: int| #[trigger] scanned_before(g, i, j, g.height as int, 0) && g.cells[i][j] as u32 == c as u32;
        lemma_char_code(g.cells[i][j], c);
    }
}

/// Relies on `char::from_u32`: the character whose code is `k`, or `None` when `k` is not a
/// character's code (a surrogate, or beyond `0x10FFFF`).
#[verifier::external_body]
fn char_from_code(k: u32) -> (r: Option<char>)
    ensures
        r matches Some(c) ==> c as u32 == k,
        r is None ==> (0xD800 <= k < 0xE000 || k >= CODE_LIMIT),
{
    char::from_u32(k)
}

/// Chooses the character that marks a square on the grid of `world`: `MARKER` when no cell
/// holds it, otherwise the character of smallest code from `FIRST_MARKER_CODE` up that is
/// neither `.` nor held by a cell; `None` when there is no such character.
pub fn pick_marker(world: &World) -> (r: Option<char>)
    ensures
        r == chosen_marker(world@),
        r is None <==> forall|c: char| FIRST_MARKER_CODE <= (c as u32) ==> !#[trigger] can_mark(world@, c),
{
    let ghost g = world@;
    let height = world.height();
    let width = world.width();
    let mut seen: Vec<bool> = Vec::new();
    while seen.len() < CODE_LIMIT as usize
        invariant
            seen@.len() <= CODE_LIMIT,
            forall|k: int| 0 <= k < seen@.len() ==> !#[trigger] seen@[k],
        decreases CODE_LIMIT - seen@.len(),
    {
        seen.push(false);
    }
    let mut a: usize = 0;
    while a < height
        invariant
            g == world@,
            height == g.height,
            width == g.width,
            a <= height,
            seen@.len() == CODE_LIMIT,
            forall|k: int| 0 <= k < CODE_LIMIT ==> #[trigger] seen@[k] == code_seen(g, k, a as int, 0),
        decreases height - a,
    {
        let mut b: usize = 0;
        while b < width
            invariant
                g == world@,
                height == g.height,
                width == g.width,
                a < height,
                b <= width,
                seen@.len() == CODE_LIMIT,
                forall|k: int| 0 <= k < CODE_LIMIT ==> #[trigger] seen@[k] == code_seen(g, k, a as int, b as int),
            decreases width - b,
        {
            let code = world.at(a, b) as u32;
            seen.set(code as usize, true);
            proof {
                assert forall|k: int| 0 <= k < CODE_LIMIT implies #[trigger] seen@[k] == code_seen(g, k, a as int, b + 1) by {
                    lemma_code_seen_step(g, k, a as int, b as int);
                }
            }
            b += 1;
        }
        proof {
            assert forall|k: int| 0 <= k < CODE_LIMIT implies #[trigger] seen@[k] == code_seen(g, k, a + 1, 0) by {
                lemma_code_seen_row(g, k, a as int);
            }
        }
        a += 1;
    }
    if !seen[MARKER as u32 as usize] {
        proof {
            lemma_code_seen_all(g, MARKER);
        }
        return Some(MARKER);
    }
    proof {
        lemma_code_seen_all(g, MARKER);
    }
    let mut k: u32 = FIRST_MARKER_CODE;
    while k < CODE_LIMIT
        invariant
            g == world@,
            height == g.height,
            g.empty == '.',
            seen@.len() == CODE_LIMIT,
            forall|n: int| 0 <= n < CODE_LIMIT ==> #[trigger] seen@[n] == code_seen(g, n, height as int, 0),
            !can_mark(g, MARKER),
            FIRST_MARKER_CODE <= k <= CODE_LIMIT,
            forall|c: char| FIRST_MARKER_CODE <= (c as u32) < k ==> !#[trigger] can_mark(g, c),
        decreases CODE_LIMIT - k,
    {
        if !seen[k as usize] {
            if let Some(c) = char_from_code(k) {
                if c != '.' {
                    proof {
                        lemma_code_seen_all(g, c);
                        assert(is_lowest_marker(g, c));
                        let m = choose|m: char| is_lowest_marker(g, m);
                        lemma_char_code(m, c);
                        assert(!((m as u32) < (c as u32)));
                        assert(!((c as u32) < (m as u32)));
                    }
                    return Some(c);
                }
                proof {
                    assert forall|d: char| FIRST_MARKER_CODE <= (d as u32) < k + 1 implies !#[trigger] can_mark(g, d) by {
                        lemma_char_code(d, c);
                    }
                }
            } else {
                proof {
                    assert forall|d: char| FIRST_MARKER_CODE <= (d as u32) < k + 1 implies !#[trigger] can_mark(g, d) by {
                        lemma_char_code(d, d);
                    }
                }
            }
        } else {
            proof {
                assert forall|d: char| FIRST_MARKER_CODE <= (d as u32) < k + 1 implies !#[trigger] can_mark(g, d) by {
                    if d as u32 == k {
                        lemma_code_seen_all(g, d);
                    }
                }
            }
        }
        k += 1;
    }
    proof {
        assert forall|m: char| !is_lowest_marker(g, m) by {
            lemma_char_code(m, m);
            if FIRST_MARKER_CODE <= (m as u32) {
                assert(!can_mark(g, m));
            }
        }
        assert forall|c: char| FIRST_MARKER_CODE <= (c as u32) implies !#[trigger] can_mark(g, c) by {
            lemma_char_code(c, c);
        }
    }
    None
}

/// Relies on `String::push`: appends `c` to the end of `s`.
#[verifier::external_body]
fn push_char(s: &mut String, c: char)
    ensures
        final(s)@ == old(s)@.push(c),
{
    s.push(c);
}

/// Draws the grid of `world` with the cells of the marked square, if any, replaced by its
/// marker; cells of the square that fall outside the grid are ignored.
fn draw(world: &World, marked: Option<(Square, char)>) -> (text: String)
    ensures
        text@ == drawing(world@, marked),
{
    let ghost g = world@;
    let ghost rows = drawn_rows(g, marked);
    let height = world.height();
    let width = world.width();
    let mut text = String::new();
    let mut i: usize = 0;
    while i < height
        invariant
            g == world@,
            rows == drawn_rows(g, marked),
            height == g.height,
            width == g.width,
            g.line_ends.len() == height,
            i <= height,
            text@ == joined(rows.take(i as int), g.line_ends.take(i as int)),
        decreases height - i,
    {
        let ghost start = text@;
        let mut j: usize = 0;
        while j < width
            invariant
                g == world@,
                height == g.height,
                width == g.width,
                i < height,
                j <= width,
                text@ == start + drawn_row(g, marked, i as int).take(j as int),
            decreases width - j,
        {
            let c = match marked {
                Some((s, m)) => if s.y <= i && i - s.y < s.size && s.x <= j && j - s.x < s.size {
                    m
                } else {
                    world.at(i, j)
                },
                None => world.at(i, j),
            };
            assert(c == drawn_cell(g, marked, i as int, j as int));
            push_char(&mut text, c);
            assert(drawn_row(g, marked, i as int).take(j + 1) =~= drawn_row(g, marked, i as int).take(
                j as int,
            ).push(c));
            j += 1;
        }
        assert(drawn_row(g, marked, i as int).take(width as int) =~= drawn_row(g, marked, i as int));
        let ghost with_row = text@;
        let end = world.line_end(i);
        let mut k: usize = 0;
        while k < end.len()
            invariant
                k <= end@.len(),
                text@ == with_row + end@.take(k as int),
            decreases end@.len() - k,
        {
            push_char(&mut text, end[k]);
            assert(end@.take(k + 1) =~= end@.take(k as int).push(end@[k as int]));
            k += 1;
        }
        assert(end@.take(k as int) =~= end@);
        assert(rows.take(i + 1).drop_last() =~= rows.take(i as int));
        assert(g.line_ends.take(i + 1).drop_last() =~= g.line_ends.take(i as int));
        i += 1;
    }
    assert(rows.take(height as int) =~= rows);
    assert(g.line_ends.take(height as int) =~= g.line_ends);
    text
}

/// Draws the grid of `world` as text: each row followed by the line break it had. With a
/// square, its cells are replaced by the marker that `pick_marker` chooses, and `None` comes
/// back only when no character can serve as one; cells of the square outside the grid are
/// ignored.
pub fn render_world(world: &World, square: Option<Square>) -> (r: Option<String>)
    ensures
        square is None ==> (r matches Some(t) && t@ == drawing(world@, None)),
        square matches Some(s) ==> match chosen_marker(world@) {
            Some(m) => (r matches Some(t) && t@ == drawing(world@, Some((s, m)))),
            None => r is None,
        },
{
    match square {
        None => Some(draw(world, None)),
        Some(s) => match pick_marker(world) {
            Some(m) => Some(draw(world, Some((s, m)))),
            None => None,
        },
    }
}

/// Drawn with no square, a grid read from a text gives back that text after its first line,
/// line breaks included.
pub proof fn lemma_plain_drawing_is_text(t: Seq<char>, w: World)
    requires
        read_outcome(t, Ok(w)),
    ensures
        drawing(w@, None) == after_first_line(t),
        t == lines_of(t)[0] + line_ends_of(t)[0] + drawing(w@, None),
{
    let g = w@;
    let rows = lines_of(t).drop_first();
    assert forall|i: int| 0 <= i < g.height implies #[trigger] drawn_row(g, None, i) == rows[i] by {
        assert(rows[i].len() == rows[0].len());
        assert(drawn_row(g, None, i) =~= rows[i]);
    }
    assert(drawn_rows(g, None) =~= rows);
    lemma_first_line_split(t);
}

} // verus!
