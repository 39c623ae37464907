//! A character board for fixtures and tests: each cell is a single character,
//! `*` a wildcard, `-` and space unmatchable empty cells, and a board is
//! written as one line of text per row.

use vstd::prelude::*;

use vstd::std_specs::iter::IteratorSpec;

use crate::line::uniform_matchable_line;
use crate::rect_board::RectBoard;
use crate::refilling::RefillableGem;
use crate::{BoardGem, MatchColor};

verus! {

/// A gem that is nothing but a character: its own color.
#[derive(Debug, Copy, Clone, Eq, PartialEq, Structural)]
pub struct CharGem(pub char);

impl MatchColor for CharGem {
    open spec fn spec_matches(self, other: Self) -> bool {
        self.0 == other.0 || self.0 == '*' || other.0 == '*'
    }

    open spec fn spec_can_start_match(self) -> bool {
        self.0 != '*' && self.0 != '-' && self.0 != ' '
    }

    open spec fn spec_hint_is_unmatchable(self) -> bool {
        self.0 == '-' || self.0 == ' '
    }

    proof fn lemma_matches_commutative(a: Self, b: Self) {
    }

    fn matches(&self, other: &Self) -> (r: bool) {
        self.0 == other.0 || self.0 == '*' || other.0 == '*'
    }

    fn can_start_match(&self) -> (r: bool) {
        self.0 != '*' && self.0 != '-' && self.0 != ' '
    }

    fn hint_is_unmatchable(&self) -> (r: bool) {
        self.0 == '-' || self.0 == ' '
    }
}

impl BoardGem for CharGem {
    type Color = CharGem;

    open spec fn spec_color(self) -> CharGem {
        self
    }

    fn color(&self) -> CharGem {
        *self
    }
}

impl RefillableGem for CharGem {
    open spec fn spec_is_empty(self) -> bool {
        self.0 == ' ' || self.0 == '-'
    }

    fn is_empty(&self) -> (r: bool) {
        self.0 == ' ' || self.0 == '-'
    }
}

/// A rectangular board of character gems.
pub type CharBoard = RectBoard<CharGem>;

/// Without a wildcard on the board, char matching is plain equality, which
/// is reflexive and transitive: such boards are well behaved, so the matcher
/// returns disjoint groups whose cells all match their group's color.
pub proof fn lemma_char_board_well_behaved(colors: Seq<CharGem>)
    requires
        forall|i: int| 0 <= i < colors.len() ==> (#[trigger] colors[i]).0 != '*',
    ensures
        crate::line::colors_well_behaved(colors),
{
    assert forall|a: CharGem, b: CharGem, c: CharGem|
        crate::line::color_on_board(a, colors) && crate::line::color_on_board(b, colors)
            && crate::line::color_on_board(c, colors) && a.spec_matches(b) && b.spec_matches(
            c,
        ) implies a.spec_matches(c) by {
        let i = choose|i: int| 0 <= i < colors.len() && colors[i] == a;
        let j = choose|j: int| 0 <= j < colors.len() && colors[j] == b;
        let k = choose|k: int| 0 <= k < colors.len() && colors[k] == c;
        assert(a.0 != '*' && b.0 != '*' && c.0 != '*');
    }
}

/// A board whose cells all carry one concrete color or the wildcard is well
/// behaved too: everything on it matches everything, so the wildcard
/// backfill scenario still yields disjoint groups.
pub proof fn lemma_char_one_color_well_behaved(colors: Seq<CharGem>, ch: char)
    requires
        forall|i: int|
            0 <= i < colors.len() ==> (#[trigger] colors[i]).0 == ch || colors[i].0 == '*',
    ensures
        crate::line::colors_well_behaved(colors),
{
    assert forall|a: CharGem, b: CharGem, c: CharGem|
        crate::line::color_on_board(a, colors) && crate::line::color_on_board(b, colors)
            && crate::line::color_on_board(c, colors) && a.spec_matches(b) && b.spec_matches(
            c,
        ) implies a.spec_matches(c) by {
        let i = choose|i: int| 0 <= i < colors.len() && colors[i] == a;
        let k = choose|k: int| 0 <= k < colors.len() && colors[k] == c;
        assert(a.0 == ch || a.0 == '*');
        assert(c.0 == ch || c.0 == '*');
    }
    assert forall|a: CharGem|
        crate::line::color_on_board(a, colors) && a.spec_can_start_match() implies a.spec_matches(
        a,
    ) by {
        let i = choose|i: int| 0 <= i < colors.len() && colors[i] == a;
    }
}


/// Collects a string's characters into a vector.
fn str_chars(s: &str) -> (r: Vec<char>)
    ensures
        r@ == s@,
{
    broadcast use vstd::string::axiom_spec_iter;
    broadcast use vstd::string::next_postcondition;

    let mut out: Vec<char> = Vec::new();
    let mut it = s.chars();
    loop
        invariant
            IteratorSpec::obeys_prophetic_iter_laws(&it),
            IteratorSpec::remaining(&it) == s@.skip(out@.len() as int),
            out@.len() <= s@.len(),
            out@ == s@.take(out@.len() as int),
            IteratorSpec::decrease(&it) is Some,
        decreases s@.len() - out@.len(),
    {
        match it.next() {
            Some(c) => {
                proof {
                    assert(c == s@[out@.len() as int]);
                }
                out.push(c);
                proof {
                    assert(out@ =~= s@.take(out@.len() as int));
                    assert(IteratorSpec::remaining(&it) =~= s@.skip(
                        out@.len() as int,
                    ));
                }
            },
            None => {
                proof {
                    assert(out@ =~= s@);
                }
                return out;
            },
        }
    }
}


/// Whitespace that is trimmed away around one row of board text.
pub open spec fn is_row_ws(c: char) -> bool {
    c == ' ' || c == '\t' || c == '\r'
}

/// A row of board text without its leading whitespace.
pub open spec fn trim_front(l: Seq<char>) -> Seq<char>
    decreases l.len(),
{
    if l.len() > 0 && is_row_ws(l.first()) {
        trim_front(l.drop_first())
    } else {
        l
    }
}

/// A row of board text without its trailing whitespace.
pub open spec fn trim_back(l: Seq<char>) -> Seq<char>
    decreases l.len(),
{
    if l.len() > 0 && is_row_ws(l.last()) {
        trim_back(l.drop_last())
    } else {
        l
    }
}

/// A row of board text without whitespace on either side.
pub open spec fn trim_row(l: Seq<char>) -> Seq<char> {
    trim_back(trim_front(l))
}

/// The position of the first line break at or after `i`, or the text's length
/// when there is none.
pub open spec fn find_newline(s: Seq<char>, i: int) -> int
    decreases s.len() - i,
{
    if i < 0 || i >= s.len() {
        s.len() as int
    } else if s[i] == '\n' {
        i
    } else {
        find_newline(s, i + 1)
    }
}

proof fn lemma_find_newline_bounds(s: Seq<char>, i: int)
    requires
        0 <= i <= s.len(),
    ensures
        i <= find_newline(s, i) <= s.len(),
    decreases s.len() - i,
{
    if i < s.len() && s[i] != '\n' {
        lemma_find_newline_bounds(s, i + 1);
    }
}

/// The text split at its line breaks, starting at position `i`; like the
/// standard line iterator, a trailing line break opens no further row.
pub open spec fn split_from(s: Seq<char>, i: int) -> Seq<Seq<char>>
    decreases s.len() - i,
    via split_from_decreases
{
    if i < 0 || i >= s.len() {
        Seq::empty()
    } else {
        let j = find_newline(s, i);
        if j == s.len() {
            seq![s.subrange(i, j)]
        } else {
            seq![s.subrange(i, j)] + split_from(s, j + 1)
        }
    }
}

#[via_fn]
proof fn split_from_decreases(s: Seq<char>, i: int) {
    if 0 <= i < s.len() {
        lemma_find_newline_bounds(s, i);
    }
}

/// The rows a piece of board text denotes: its lines, each trimmed.
pub open spec fn board_rows(s: Seq<char>) -> Seq<Seq<char>> {
    split_from(s, 0).map_values(|l: Seq<char>| trim_row(l))
}

/// Well-formed board text: at least one row, all rows equally wide, and small
/// enough for the machine.
pub open spec fn board_text_wf(s: Seq<char>) -> bool {
    let rows = board_rows(s);
    &&& rows.len() >= 1
    &&& forall|i: int| 0 <= i < rows.len() ==> (#[trigger] rows[i]).len() == rows[0].len()
    &&& rows.len() * rows[0].len() <= usize::MAX
}

proof fn lemma_push_last_gem(s: Seq<CharGem>, v: CharGem)
    ensures
        s.push(v)[s.len() as int] == v,
        forall|i: int| 0 <= i < s.len() ==> s.push(v)[i] == s[i],
{
}

/// Checks whether a character is trimmed away around a row.
fn row_ws(c: char) -> (r: bool)
    ensures
        r == is_row_ws(c),
{
    c == ' ' || c == '\t' || c == '\r'
}

/// Copies one row of the text and trims the whitespace around it.
fn take_trimmed(cs: &Vec<char>, start: usize, end: usize) -> (r: Vec<char>)
    requires
        start <= end <= cs@.len(),
    ensures
        r@ == trim_row(cs@.subrange(start as int, end as int)),
{
    let ghost seg = cs@.subrange(start as int, end as int);
    let mut a = start;
    while a < end && row_ws(cs[a])
        invariant
            start <= a <= end,
            trim_front(seg) == trim_front(cs@.subrange(a as int, end as int)),
        decreases end - a,
    {
        proof {
            assert(cs@.subrange(a as int, end as int).drop_first() =~= cs@.subrange(
                a + 1,
                end as int,
            ));
        }
        a = a + 1;
    }
    proof {
        assert(trim_front(seg) == cs@.subrange(a as int, end as int));
    }
    let mut b = end;
    while b > a && row_ws(cs[b - 1])
        invariant
            a <= b <= end,
            trim_front(seg) == cs@.subrange(a as int, end as int),
            trim_back(cs@.subrange(a as int, end as int)) == trim_back(
                cs@.subrange(a as int, b as int),
            ),
        decreases b,
    {
        proof {
            assert(cs@.subrange(a as int, b as int).drop_last() =~= cs@.subrange(
                a as int,
                b - 1,
            ));
        }
        b = b - 1;
    }
    proof {
        assert(trim_row(seg) == cs@.subrange(a as int, b as int));
    }
    let mut out: Vec<char> = Vec::new();
    let mut t = a;
    while t < b
        invariant
            a <= t <= b,
            b <= cs@.len(),
            out@ == cs@.subrange(a as int, t as int),
        decreases b - t,
    {
        out.push(cs[t]);
        proof {
            assert(out@ =~= cs@.subrange(a as int, t + 1));
        }
        t = t + 1;
    }
    out
}

/// Parses a textual board: one line per row, each line trimmed, every cell a
/// single character gem.  Rows must all have the same width, which the
/// original asserts at run time, so uneven or empty input is excluded here.
#[verifier::rlimit(100)]
pub fn board_from_str(board: &str) -> (r: CharBoard)
    requires
        board_text_wf(board@),
    ensures
        r.wf(),
        r.height == board_rows(board@).len(),
        r.width == board_rows(board@)[0].len(),
        forall|y: int, x: int|
            0 <= y < r.height && 0 <= x < r.width ==> r.board@[y * r.width as int + x]
                == (CharGem(board_rows(board@)[y][x])),
{
    let cs = str_chars(board);
    let ghost all = board_rows(board@);
    let mut rows: Vec<Vec<char>> = Vec::new();
    let ghost done: Seq<Seq<char>> = Seq::empty();
    let mut start: usize = 0;
    proof {
        assert(split_from(cs@, 0) =~= done + split_from(cs@, 0));
    }
    let mut more = start < cs.len();
    while more
        invariant
            start <= cs@.len(),
            more == (start < cs@.len()),
            split_from(cs@, 0) == done + split_from(cs@, start as int),
            rows@.len() == done.len(),
            forall|t: int| 0 <= t < done.len() ==> (#[trigger] rows@[t])@ == trim_row(done[t]),
        decreases cs@.len() - start,
    {
        let mut j = start;
        while j < cs.len() && cs[j] != '\n'
            invariant
                start <= j <= cs@.len(),
                find_newline(cs@, start as int) == find_newline(cs@, j as int),
            decreases cs@.len() - j,
        {
            j = j + 1;
        }
        proof {
            assert(find_newline(cs@, start as int) == j as int);
            lemma_find_newline_bounds(cs@, start as int);
        }
        let row = take_trimmed(&cs, start, j);
        rows.push(row);
        proof {
            done = done.push(cs@.subrange(start as int, j as int));
            assert(split_from(cs@, 0) =~= done + split_from(cs@, j + 1));
        }
        if j < cs.len() {
            start = j + 1;
        } else {
            start = j;
            proof {
                assert(split_from(cs@, 0) =~= done + split_from(cs@, start as int));
            }
        }
        more = start < cs.len();
    }
    proof {
        assert(split_from(cs@, 0) =~= done);
        assert(all.len() == rows@.len());
        assert forall|t: int| 0 <= t < all.len() implies all[t] == rows@[t]@ by {
            assert(all[t] == trim_row(split_from(cs@, 0)[t]));
        }
        assert(all.len() >= 1);
    }
    let height = rows.len();
    let ghost w = all[0].len() as int;
    let ghost h = all.len() as int;
    let first = &rows[0];
    let width = first.len();
    proof {
        assert(h * w <= usize::MAX);
    }
    let mut cells: Vec<CharGem> = Vec::new();
    let mut y: usize = 0;
    while y < height
        invariant
            y <= height,
            height == h,
            width == w,
            rows@.len() == h,
            forall|t: int| 0 <= t < all.len() ==> all[t] == (#[trigger] rows@[t])@,
            forall|t: int| 0 <= t < all.len() ==> (#[trigger] all[t]).len() == w,
            h * w <= usize::MAX,
            cells@.len() == y * w,
            forall|yy: int, xx: int|
                0 <= yy < y && 0 <= xx < w ==> cells@[yy * w + xx] == (CharGem(
                    #[trigger] all[yy][xx],
                )),
        decreases height - y,
    {
        proof {
            assert(y * w + w <= h * w) by (nonlinear_arith)
                requires
                    0 <= y < h,
                    w >= 0,
            ;
            assert(0 <= y * w) by (nonlinear_arith)
                requires
                    y >= 0,
                    w >= 0,
            ;
        }
        let mut x: usize = 0;
        while x < width
            invariant
                0 <= x <= width,
                y < height,
                cells@.len() == y * w + x,
                forall|yy: int, xx: int|
                    0 <= yy < y && 0 <= xx < w ==> cells@[yy * w + xx] == (CharGem(
                        #[trigger] all[yy][xx],
                    )),
                forall|xx: int|
                    0 <= xx < x ==> cells@[y * w + xx] == (CharGem(#[trigger] all[y as int][xx])),
            decreases width - x,
        {
            let rowv = &rows[y];
            let ghost pre = cells@;
            cells.push(CharGem(rowv[x]));
            proof {
                assert(pre.len() == y * w + x);
                assert(cells@ == pre.push(CharGem(all[y as int][x as int])));
                lemma_push_last_gem(pre, CharGem(all[y as int][x as int]));
                assert(cells@[y * w + x] == (CharGem(all[y as int][x as int])));
                assert forall|yy: int, xx: int|
                    0 <= yy < y && 0 <= xx < w implies cells@[yy * w + xx] == (CharGem(
                    #[trigger] all[yy][xx],
                )) by {
                    assert(yy * w + xx < y * w + x && 0 <= yy * w + xx) by (nonlinear_arith)
                        requires
                            0 <= yy < y,
                            0 <= xx < w,
                            x >= 0,
                    ;
                    assert(pre[yy * w + xx] == (CharGem(all[yy][xx])));
                    assert(cells@[yy * w + xx] == pre[yy * w + xx]);
                }
                assert forall|xx: int|
                    0 <= xx < x + 1 implies cells@[y * w + xx] == (CharGem(
                    #[trigger] all[y as int][xx],
                )) by {
                    if xx < x {
                        assert(0 <= y * w + xx < y * w + x) by (nonlinear_arith)
                            requires
                                0 <= y,
                                0 <= xx < x,
                                w >= 0,
                                y * w >= 0,
                        ;
                        assert(pre[y * w + xx] == (CharGem(all[y as int][xx])));
                        assert(cells@[y * w + xx] == pre[y * w + xx]);
                    } else {
                        assert(cells@[y * w + x] == (CharGem(all[y as int][x as int])));
                    }
                }
            }
            x = x + 1;
        }
        proof {
            assert((y + 1) * w == y * w + w) by (nonlinear_arith);
        }
        y = y + 1;
    }
    proof {
        assert(cells@.len() == h * w) by (nonlinear_arith)
            requires
                cells@.len() == h * w,
        ;
        assert(h * w == w * h) by (nonlinear_arith);
    }
    let b = RectBoard::new(width, height, cells);
    proof {
        assert forall|y2: int, x2: int|
            0 <= y2 < b.height && 0 <= x2 < b.width implies b.board@[y2 * b.width as int + x2]
            == (CharGem(board_rows(board@)[y2][x2])) by {
        }
    }
    b
}

} // verus!
