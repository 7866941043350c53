//! Reading text: splitting it into lines and reading a decimal count.
use vstd::prelude::*;

verus! {

/// `l` without the carriage return that ends it, if any.
pub open spec fn strip_cr(l: Seq<char>) -> Seq<char> {
    if l.len() > 0 && l.last() == '\r' {
        l.drop_last()
    } else {
        l
    }
}

/// The line break that ends the line `l` read so far: `\r\n` when `l` ends with `\r`, else `\n`.
pub open spec fn line_end(l: Seq<char>) -> Seq<char> {
    if l.len() > 0 && l.last() == '\r' {
        seq!['\r', '\n']
    } else {
        seq!['\n']
    }
}

/// After reading all of `t`: the lines that a line break has ended, their line breaks, and the
/// line still open.
pub open spec fn split_state(t: Seq<char>) -> (Seq<Seq<char>>, Seq<Seq<char>>, Seq<char>)
    decreases t.len(),
{
    if t.len() == 0 {
        (Seq::empty(), Seq::empty(), Seq::empty())
    } else {
        let (done, ends, open) = split_state(t.drop_last());
        if t.last() == '\n' {
            (done.push(strip_cr(open)), ends.push(line_end(open)), Seq::empty())
        } else {
            (done, ends, open.push(t.last()))
        }
    }
}

/// The lines of `t`, split at each `\n` with a `\r` before it dropped. A last line without a
/// line break counts; nothing after the last line break counts as a line when it is empty.
pub open spec fn lines_of(t: Seq<char>) -> Seq<Seq<char>> {
    let (done, ends, open) = split_state(t);
    if open.len() == 0 {
        done
    } else {
        done.push(open)
    }
}

/// The line break after each line of `t` (`\n` or `\r\n`), or nothing after a last line that
/// has none.
pub open spec fn line_ends_of(t: Seq<char>) -> Seq<Seq<char>> {
    let (done, ends, open) = split_state(t);
    if open.len() == 0 {
        ends
    } else {
        ends.push(Seq::empty())
    }
}

/// The lines, each followed by its line break.
pub open spec fn joined(lines: Seq<Seq<char>>, ends: Seq<Seq<char>>) -> Seq<char>
    decreases lines.len(),
{
    if lines.len() == 0 {
        Seq::empty()
    } else {
        joined(lines.drop_last(), ends.drop_last()) + lines.last() + ends.last()
    }
}

/// The text of `t` after its first line and that line's break.
pub open spec fn after_first_line(t: Seq<char>) -> Seq<char> {
    joined(lines_of(t).drop_first(), line_ends_of(t).drop_first())
}

/// The views of a sequence of vectors.
pub open spec fn views(v: Seq<Vec<char>>) -> Seq<Seq<char>> {
    v.map_values(|l: Vec<char>| l@)
}

proof fn lemma_split_state_rejoins(t: Seq<char>)
    ensures
        split_state(t).0.len() == split_state(t).1.len(),
        joined(split_state(t).0, split_state(t).1) + split_state(t).2 == t,
    decreases t.len(),
{
    if t.len() == 0 {
        assert(Seq::<char>::empty() + Seq::<char>::empty() =~= t);
    } else {
        let (done, ends, open) = split_state(t.drop_last());
        lemma_split_state_rejoins(t.drop_last());
        if t.last() == '\n' {
            let d2 = done.push(strip_cr(open));
            let e2 = ends.push(line_end(open));
            assert(d2.drop_last() =~= done);
            assert(e2.drop_last() =~= ends);
            assert(strip_cr(open) + line_end(open) =~= open.push('\n'));
            assert(joined(d2, e2) == joined(done, ends) + strip_cr(open) + line_end(open));
            assert(t =~= t.drop_last().push('\n'));
            assert(joined(d2, e2) + Seq::<char>::empty() =~= t);
        } else {
            assert(t =~= t.drop_last().push(t.last()));
            assert(joined(done, ends) + open.push(t.last()) =~= t);
        }
    }
}

/// A text is its lines, each followed by its line break.
pub proof fn lemma_lines_rejoin(t: Seq<char>)
    ensures
        lines_of(t).len() == line_ends_of(t).len(),
        joined(lines_of(t), line_ends_of(t)) == t,
{
    lemma_split_state_rejoins(t);
    let (done, ends, open) = split_state(t);
    if open.len() == 0 {
        assert(joined(done, ends) + open =~= joined(done, ends));
    } else {
        let d2 = done.push(open);
        let e2 = ends.push(Seq::empty());
        assert(d2.drop_last() =~= done);
        assert(e2.drop_last() =~= ends);
        assert(joined(d2, e2) =~= joined(done, ends) + open);
    }
}

/// Joining lines is the first line and its break, then the others joined.
pub proof fn lemma_joined_first(lines: Seq<Seq<char>>, ends: Seq<Seq<char>>)
    requires
        lines.len() > 0,
        lines.len() == ends.len(),
    ensures
        joined(lines, ends) == lines[0] + ends[0] + joined(lines.drop_first(), ends.drop_first()),
    decreases lines.len(),
{
    if lines.len() == 1 {
        assert(lines.drop_last() =~= Seq::<Seq<char>>::empty());
        assert(lines.drop_first() =~= Seq::<Seq<char>>::empty());
        assert(joined(lines.drop_last(), ends.drop_last()) == Seq::<char>::empty());
        assert(joined(lines.drop_first(), ends.drop_first()) == Seq::<char>::empty());
        assert(joined(lines, ends) =~= lines[0] + ends[0] + Seq::<char>::empty());
    } else {
        lemma_joined_first(lines.drop_last(), ends.drop_last());
        assert(lines.drop_last().drop_first() =~= lines.drop_first().drop_last());
        assert(ends.drop_last().drop_first() =~= ends.drop_first().drop_last());
        assert(lines.drop_first().last() == lines.last());
        assert(ends.drop_first().last() == ends.last());
        assert(joined(lines, ends) =~= lines[0] + ends[0] + joined(lines.drop_first(), ends.drop_first()));
    }
}

/// A text is its first line, that line's break, and the text after them.
pub proof fn lemma_first_line_split(t: Seq<char>)
    requires
        lines_of(t).len() > 0,
    ensures
        t == lines_of(t)[0] + line_ends_of(t)[0] + after_first_line(t),
{
    lemma_lines_rejoin(t);
    lemma_joined_first(lines_of(t), line_ends_of(t));
}

/// The characters of `s`, in order.
pub fn chars_of(s: &String) -> (r: Vec<char>)
    ensures
        r@ == s@,
{
    let mut r: Vec<char> = Vec::new();
    for c in it: s.chars()
        invariant
            r@ == it.seq().take(it.index() as int),
    {
        r.push(c);
    }
    r
}

/// Splits `t` into its lines and their line breaks.
pub fn split_lines(t: &Vec<char>) -> (r: (Vec<Vec<char>>, Vec<Vec<char>>))
    ensures
        views(r.0@) == lines_of(t@),
        views(r.1@) == line_ends_of(t@),
{
    let mut done: Vec<Vec<char>> = Vec::new();
    let mut ends: Vec<Vec<char>> = Vec::new();
    let mut open: Vec<char> = Vec::new();
    let mut k: usize = 0;
    while k < t.len()
        invariant
            k <= t@.len(),
            (views(done@), views(ends@), open@) == split_state(t@.take(k as int)),
        decreases t@.len() - k,
    {
        let ch = t[k];
        assert(t@.take(k + 1).drop_last() =~= t@.take(k as int));
        if ch == '\n' {
            let mut end: Vec<char> = Vec::new();
            let n = open.len();
            if n > 0 && open[n - 1] == '\r' {
                open.pop();
                end.push('\r');
            }
            end.push('\n');
            assert(end@ =~= line_end(split_state(t@.take(k as int)).2));
            let ghost done_before = done@;
            let ghost ends_before = ends@;
            done.push(open);
            ends.push(end);
            assert(views(done@) =~= views(done_before).push(open@));
            assert(views(ends@) =~= views(ends_before).push(end@));
            open = Vec::new();
        } else {
            open.push(ch);
        }
        k += 1;
    }
    assert(t@.take(k as int) =~= t@);
    if open.len() > 0 {
        let ghost done_before = done@;
        let ghost ends_before = ends@;
        done.push(open);
        ends.push(Vec::new());
        assert(views(done@) =~= views(done_before).push(open@));
        assert(views(ends@) =~= views(ends_before).push(Seq::empty()));
    }
    (done, ends)
}

/// `c` is one of `0` to `9`.
pub open spec fn is_digit(c: char) -> bool {
    '0' <= c <= '9'
}

/// The value of the digit `c`.
pub open spec fn digit_value(c: char) -> nat {
    ((c as u32) - ('0' as u32)) as nat
}

/// The value of `s` read as a decimal numeral.
pub open spec fn decimal_value(s: Seq<char>) -> nat
    decreases s.len(),
{
    if s.len() == 0 {
        0
    } else {
        decimal_value(s.drop_last()) * 10 + digit_value(s.last())
    }
}

/// `s` is a non-empty run of decimal digits whose value fits in a `usize`.
pub open spec fn is_count(s: Seq<char>) -> bool {
    &&& s.len() > 0
    &&& forall|i: int| 0 <= i < s.len() ==> #[trigger] is_digit(s[i])
    &&& decimal_value(s) <= usize::MAX
}

/// A longer numeral is worth at least as much as any of its prefixes.
proof fn lemma_decimal_prefix(s: Seq<char>, k: int)
    requires
        0 <= k <= s.len(),
    ensures
        decimal_value(s.take(k)) <= decimal_value(s),
    decreases s.len(),
{
    if k < s.len() {
        assert(s.drop_last().take(k) =~= s.take(k));
        lemma_decimal_prefix(s.drop_last(), k);
    } else {
        assert(s.take(k) =~= s);
    }
}

/// Reads `s` as a count: `None` unless `s` is a non-empty run of digits that fits in a `usize`.
pub fn parse_count(s: &Vec<char>) -> (r: Option<usize>)
    ensures
        r == (if is_count(s@) {
            Some(decimal_value(s@) as usize)
        } else {
            None::<usize>
        }),
{
    if s.len() == 0 {
        return None;
    }
    let mut v: usize = 0;
    let mut k: usize = 0;
    while k < s.len()
        invariant
            k <= s@.len(),
            forall|i: int| 0 <= i < k ==> #[trigger] is_digit(s@[i]),
            v == decimal_value(s@.take(k as int)),
        decreases s@.len() - k,
    {
        let c = s[k];
        assert(s@.take(k + 1).drop_last() =~= s@.take(k as int));
        if !('0' <= c && c <= '9') {
            assert(!is_digit(s@[k as int]));
            return None;
        }
        let d: usize = ((c as u32) - ('0' as u32)) as usize;
        if v > (usize::MAX - d) / 10 {
            proof {
                let m = usize::MAX as int;
                assert(v * 10 + d > m) by (nonlinear_arith)
                    requires
                        v > (m - d) / 10,
                        0 <= d <= 9,
                        m >= d,
                ;
                lemma_decimal_prefix(s@, k + 1);
            }
            return None;
        }
        proof {
            let m = usize::MAX as int;
            assert(v * 10 + d <= m) by (nonlinear_arith)
                requires
                    v <= (m - d) / 10,
                    0 <= d <= 9,
                    m >= d,
            ;
        }
        v = v * 10 + d;
        k += 1;
    }
    assert(s@.take(k as int) =~= s@);
    Some(v)
}

} // verus!
