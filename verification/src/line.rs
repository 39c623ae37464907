//! The line matcher: scans every line of a board for contiguous runs of
//! matching colors, closes runs into match groups, and merges groups that
//! touch each other when they share a color.

use vstd::prelude::*;

use vstd::pervasive::VecAdditionalExecFns;

use crate::{BoardGem, BoardMatch, MatchColor};

verus! {

/// Settings of one matching pass.
#[derive(Debug, Clone, Copy)]
pub struct LineMatcherSettings {
    /// Minimum run length along a single line for a run to count as a match.
    pub line_size: usize,
    /// Optional minimum size of a final match group.
    pub min_group_size: Option<usize>,
    /// Whether touching groups of matching colors should be unified even
    /// across different lines.
    pub merge_neighbours: bool,
}

impl LineMatcherSettings {
    /// The minimum group size actually in force: `min_group_size` when set,
    /// otherwise nothing beyond `line_size`.
    pub open spec fn spec_min_group(self) -> int {
        if self.min_group_size is Some {
            self.min_group_size->0 as int
        } else {
            0
        }
    }

    /// Builds settings from the three fields.
    pub fn new(line_size: usize, min_group_size: Option<usize>, merge_neighbours: bool) -> (r:
        Self)
        ensures
            r.line_size == line_size,
            r.min_group_size == min_group_size,
            r.merge_neighbours == merge_neighbours,
    {
        LineMatcherSettings { line_size, min_group_size, merge_neighbours }
    }

    /// The same settings with another minimum run length.
    pub fn with_line_size(self, line_size: usize) -> (r: Self)
        ensures
            r.line_size == line_size,
            r.min_group_size == self.min_group_size,
            r.merge_neighbours == self.merge_neighbours,
    {
        LineMatcherSettings { line_size, ..self }
    }

    /// The same settings with another minimum group size.
    pub fn with_min_group_size(self, min_group_size: Option<usize>) -> (r: Self)
        ensures
            r.line_size == self.line_size,
            r.min_group_size == min_group_size,
            r.merge_neighbours == self.merge_neighbours,
    {
        LineMatcherSettings { min_group_size, ..self }
    }

    /// The same settings with neighbour merging switched on or off.
    pub fn with_merge_neighbours(self, merge_neighbours: bool) -> (r: Self)
        ensures
            r.line_size == self.line_size,
            r.min_group_size == self.min_group_size,
            r.merge_neighbours == merge_neighbours,
    {
        LineMatcherSettings { merge_neighbours, ..self }
    }

    /// Common match-3 settings: runs of three, no extra group minimum, no
    /// neighbour merging.
    pub fn common_match3() -> (r: Self)
        ensures
            r.line_size == 3,
            r.min_group_size is None,
            r.merge_neighbours == false,
    {
        LineMatcherSettings { line_size: 3, min_group_size: None, merge_neighbours: false }
    }
}

/// A well-formed line: in-range cell indices, no index twice, and no longer
/// than the board itself.
pub open spec fn line_wf(line: Seq<usize>, ncells: int) -> bool {
    &&& forall|j: int| 0 <= j < line.len() ==> line[j] < ncells
    &&& line.no_duplicates()
    &&& line.len() <= ncells
}

/// Every line of the collection is well-formed.
pub open spec fn lines_wf(lines: Seq<Vec<usize>>, ncells: int) -> bool {
    forall|i: int| 0 <= i < lines.len() ==> #[trigger] line_wf(lines[i]@, ncells)
}

/// A well-formed neighbour list: one entry per cell, every neighbour index in
/// range.
pub open spec fn neighbours_wf(nb: Seq<Vec<usize>>, ncells: int) -> bool {
    &&& nb.len() == ncells
    &&& forall|i: int, j: int|
        0 <= i < nb.len() && 0 <= j < nb[i]@.len() ==> #[trigger] nb[i]@[j] < ncells
}

/// A strictly ascending sequence of cell indices.
pub open spec fn strictly_sorted(s: Seq<usize>) -> bool {
    forall|a: int, b: int| 0 <= a < b < s.len() ==> s[a] < s[b]
}

/// A group the matcher keeps alive internally: all cells on the board, at
/// least `min` distinct cells, and a color a run may start with.
pub open spec fn group_wf<C: MatchColor>(g: BoardMatch<C>, ncells: int, min: int) -> bool {
    &&& forall|k: int| 0 <= k < g.spec_cells().len() ==> g.spec_cells()[k] < ncells
    &&& g.spec_cells().to_set().len() >= min
    &&& g.spec_color().spec_can_start_match()
}

/// Every alive group in the group table is well-formed.
pub open spec fn matches_wf<C: MatchColor>(
    ms: Seq<Option<BoardMatch<C>>>,
    ncells: int,
    min: int,
) -> bool {
    forall|k: int|
        0 <= k < ms.len() && ms[k] is Some ==> #[trigger] group_wf(ms[k]->0, ncells, min)
}

/// The cell-to-group index is in range: one entry list per cell, every listed
/// group id below the group table's length.
pub open spec fn board_wf(mb: Seq<Vec<usize>>, nmatches: int, ncells: int) -> bool {
    &&& mb.len() == ncells
    &&& forall|c: int, t: int|
        0 <= c < mb.len() && 0 <= t < mb[c]@.len() ==> #[trigger] mb[c]@[t] < nmatches
}

/// A well-behaved color system: a color that can start a run matches itself,
/// and matching is transitive.  Together with the commutativity every
/// implementation owes, this makes matching an equivalence wherever it
/// holds; wildcard colors, which match unequal colors, fall outside it.
pub open spec fn matching_well_behaved<C: MatchColor>() -> bool {
    &&& forall|a: C| a.spec_can_start_match() ==> #[trigger] a.spec_matches(a)
    &&& forall|a: C, b: C, c: C|
        #![trigger a.spec_matches(b), b.spec_matches(c)]
        a.spec_matches(b) && b.spec_matches(c) ==> a.spec_matches(c)
}

/// The color occurs somewhere on the board.
pub open spec fn color_on_board<C: MatchColor>(c: C, colors: Seq<C>) -> bool {
    exists|i: int| 0 <= i < colors.len() && colors[i] == c
}

/// Matching is well behaved among the colors actually on the board: each
/// startable board color matches itself, and matching is transitive over
/// board colors.  This is weaker than `matching_well_behaved` of the whole
/// type: a char board without wildcards qualifies even though the char color
/// system as a whole does not.
pub open spec fn colors_well_behaved<C: MatchColor>(colors: Seq<C>) -> bool {
    &&& forall|a: C|
        color_on_board(a, colors) && a.spec_can_start_match() ==> #[trigger] a.spec_matches(a)
    &&& forall|a: C, b: C, c: C|
        #![trigger a.spec_matches(b), b.spec_matches(c)]
        color_on_board(a, colors) && color_on_board(b, colors) && color_on_board(c, colors)
            && a.spec_matches(b) && b.spec_matches(c) ==> a.spec_matches(c)
}

/// A type-wide well-behaved color system is well behaved on every board.
pub proof fn lemma_type_well_behaved<C: MatchColor>(colors: Seq<C>)
    requires
        matching_well_behaved::<C>(),
    ensures
        colors_well_behaved(colors),
{
}

/// Every alive group's color occurs on the board.
pub open spec fn groups_on_board<C: MatchColor>(
    ms: Seq<Option<BoardMatch<C>>>,
    colors: Seq<C>,
) -> bool {
    forall|k: int|
        0 <= k < ms.len() && ms[k] is Some ==> #[trigger] color_on_board(
            (ms[k]->0).spec_color(),
            colors,
        )
}

/// Every listed cell matches the given color.
pub open spec fn group_cells_match_seq<C: MatchColor>(
    color: C,
    cs: Seq<usize>,
    colors: Seq<C>,
) -> bool {
    forall|k: int|
        0 <= k < cs.len() ==> color.spec_matches(colors[#[trigger] cs[k] as int])
}

/// Every cell of the group matches the group's color.
pub open spec fn group_cells_match<C: MatchColor>(g: BoardMatch<C>, colors: Seq<C>) -> bool {
    group_cells_match_seq(g.spec_color(), g.spec_cells(), colors)
}

/// The colors of a board of gems, cell by cell.
pub open spec fn colors_of_gems<Gem: BoardGem>(cells: Seq<Gem>) -> Seq<Gem::Color> {
    cells.map_values(|g: Gem| g.spec_color())
}

/// Every alive group's cells match its color.
pub open spec fn cells_match_wf<C: MatchColor>(
    ms: Seq<Option<BoardMatch<C>>>,
    colors: Seq<C>,
) -> bool {
    forall|k: int|
        0 <= k < ms.len() && ms[k] is Some ==> #[trigger] group_cells_match(ms[k]->0, colors)
}

/// The two groups share no cell.
pub open spec fn groups_disjoint<C: MatchColor>(g1: BoardMatch<C>, g2: BoardMatch<C>) -> bool {
    forall|ci: int|
        0 <= ci < g1.spec_cells().len() ==> !g2.spec_cells().contains(
            #[trigger] g1.spec_cells()[ci],
        )
}

/// Any two distinct alive groups whose colors match are disjoint.
pub open spec fn disjoint_matching<C: MatchColor>(ms: Seq<Option<BoardMatch<C>>>) -> bool {
    forall|k1: int, k2: int|
        #![trigger ms[k1], ms[k2]]
        0 <= k1 < ms.len() && 0 <= k2 < ms.len() && k1 != k2 && ms[k1] is Some && ms[k2] is Some
            && (ms[k1]->0).spec_color().spec_matches((ms[k2]->0).spec_color()) ==> groups_disjoint(
            ms[k1]->0,
            ms[k2]->0,
        )
}

/// Every cell a group claims knows about the group: the group's id stands in
/// the cell's entry list.
pub open spec fn board_complete<C: MatchColor>(
    ms: Seq<Option<BoardMatch<C>>>,
    mb: Seq<Vec<usize>>,
) -> bool {
    forall|k: int, ci: int|
        #![trigger (ms[k]->0).spec_cells()[ci]]
        0 <= k < ms.len() && ms[k] is Some && 0 <= ci < (ms[k]->0).spec_cells().len()
            ==> mb[(ms[k]->0).spec_cells()[ci] as int]@.contains(k as usize)
}

/// The group holds every cell of the contiguous segment of length `ls` that
/// starts at position `a` of line `li`.
pub open spec fn seed_at<C: MatchColor>(
    g: BoardMatch<C>,
    lines: Seq<Vec<usize>>,
    ls: int,
    li: int,
    a: int,
) -> bool {
    &&& 0 <= li < lines.len()
    &&& 0 <= a
    &&& a + ls <= lines[li]@.len()
    &&& forall|t: int| 0 <= t < ls ==> #[trigger] g.spec_cells().contains(lines[li]@[a + t])
}

/// The group contains a full seed run: every cell of some contiguous segment
/// of length `ls` of one of the board's lines.
pub open spec fn group_has_seed<C: MatchColor>(
    g: BoardMatch<C>,
    lines: Seq<Vec<usize>>,
    ls: int,
) -> bool {
    exists|li: int, a: int| #[trigger] seed_at(g, lines, ls, li, a)
}

/// A group that keeps all its cells keeps its seed run.
proof fn lemma_seed_grows<C: MatchColor>(
    g_old: BoardMatch<C>,
    g_new: BoardMatch<C>,
    lines: Seq<Vec<usize>>,
    ls: int,
)
    requires
        group_has_seed(g_old, lines, ls),
        forall|c: usize|
            #[trigger] g_old.spec_cells().contains(c) ==> g_new.spec_cells().contains(c),
    ensures
        group_has_seed(g_new, lines, ls),
{
    let (li2, a) = choose|li2: int, a: int| #[trigger] seed_at(g_old, lines, ls, li2, a);
    assert forall|t: int|
        0 <= t < ls implies #[trigger] g_new.spec_cells().contains(lines[li2]@[a + t]) by {
        assert(g_old.spec_cells().contains(lines[li2]@[a + t]));
    }
    assert(seed_at(g_new, lines, ls, li2, a));
}

/// Every alive group still holds a full seed run.
pub open spec fn seeds_wf<C: MatchColor>(
    ms: Seq<Option<BoardMatch<C>>>,
    lines: Seq<Vec<usize>>,
    ls: int,
) -> bool {
    forall|k: int|
        0 <= k < ms.len() && ms[k] is Some ==> #[trigger] group_has_seed(ms[k]->0, lines, ls)
}

/// A live straight run: `ls` consecutive cells of the line, every one able
/// to start a match and none skippable, each matching the first.  This is
/// what spec terms a remaining straight match: the matcher must never leave
/// one whole.
pub open spec fn live_run<C: MatchColor>(
    colors: Seq<C>,
    line: Seq<usize>,
    j: int,
    ls: int,
) -> bool {
    &&& 0 <= j
    &&& j + ls <= line.len()
    &&& ls >= 1
    &&& forall|t: int|
        0 <= t < ls ==> (#[trigger] colors[line[j + t] as int]).spec_can_start_match()
    &&& forall|t: int|
        0 <= t < ls ==> !(#[trigger] colors[line[j + t] as int]).spec_hint_is_unmatchable()
    &&& forall|t: int|
        0 <= t < ls ==> colors[line[j] as int].spec_matches(
            #[trigger] colors[line[j + t] as int],
        )
}

/// A live segment: `ls` consecutive cells of the line, none skippable, every
/// pair of them matching, and at least one of them able to start a run.  A
/// wildcard stretch before a startable cell forms such a segment even though
/// no run can start on the wildcards themselves: the matcher back-extends a
/// fresh run over them, so no live segment may survive whole either.
pub open spec fn live_segment<C: MatchColor>(
    colors: Seq<C>,
    line: Seq<usize>,
    j: int,
    ls: int,
) -> bool {
    &&& 0 <= j
    &&& j + ls <= line.len()
    &&& ls >= 1
    &&& forall|t: int|
        0 <= t < ls ==> !(#[trigger] colors[line[j + t] as int]).spec_hint_is_unmatchable()
    &&& exists|p: int|
        0 <= p < ls && (#[trigger] colors[line[j + p] as int]).spec_can_start_match()
    &&& forall|s: int, t: int|
        0 <= s < ls && 0 <= t < ls ==> (#[trigger] colors[line[j + s] as int]).spec_matches(
            #[trigger] colors[line[j + t] as int],
        )
}

/// The group covers every cell of the segment of `ls` cells that starts at
/// position `j` of the line.
pub open spec fn covers_segment<C: MatchColor>(
    g: BoardMatch<C>,
    line: Seq<usize>,
    j: int,
    ls: int,
) -> bool {
    forall|t: int| 0 <= t < ls ==> #[trigger] g.spec_cells().contains(line[j + t])
}

/// One alive group covers every cell of the segment of `ls` cells that
/// starts at position `j` of the line.
pub open spec fn segment_in_alive<C: MatchColor>(
    ms: Seq<Option<BoardMatch<C>>>,
    line: Seq<usize>,
    j: int,
    ls: int,
) -> bool {
    exists|k: int|
        0 <= k < ms.len() && ms[k] is Some && forall|t: int|
            0 <= t < ls ==> (#[trigger] (ms[k]->0).spec_cells().contains(line[j + t]))
}

/// Everything the group claims is claimed by one single alive group of the
/// table.
pub open spec fn group_absorbed<C: MatchColor>(
    g: BoardMatch<C>,
    ms: Seq<Option<BoardMatch<C>>>,
) -> bool {
    exists|k2: int|
        0 <= k2 < ms.len() && ms[k2] is Some && forall|c: usize|
            #[trigger] g.spec_cells().contains(c) ==> (ms[k2]->0).spec_cells().contains(c)
}

/// Every alive group of the old table survives whole inside some alive group
/// of the new one: either its slot is untouched, or a merge moved all of its
/// cells into the group that absorbed it.
pub open spec fn groups_absorbed<C: MatchColor>(
    ms_old: Seq<Option<BoardMatch<C>>>,
    ms_new: Seq<Option<BoardMatch<C>>>,
) -> bool {
    forall|k: int|
        0 <= k < ms_old.len() && ms_old[k] is Some ==> #[trigger] group_absorbed(
            ms_old[k]->0,
            ms_new,
        )
}

/// Every alive group is absorbed in its own table.
pub proof fn lemma_groups_absorbed_refl<C: MatchColor>(ms: Seq<Option<BoardMatch<C>>>)
    ensures
        groups_absorbed(ms, ms),
{
    assert forall|k: int| 0 <= k < ms.len() && ms[k] is Some implies #[trigger] group_absorbed(
        ms[k]->0,
        ms,
    ) by {
        assert(0 <= k < ms.len() && ms[k] is Some && forall|c: usize|
            #[trigger] (ms[k]->0).spec_cells().contains(c) ==> (ms[k]->0).spec_cells().contains(
                c,
            ));
    }
}

/// Absorption composes across two steps.
pub proof fn lemma_groups_absorbed_trans<C: MatchColor>(
    a: Seq<Option<BoardMatch<C>>>,
    b: Seq<Option<BoardMatch<C>>>,
    c: Seq<Option<BoardMatch<C>>>,
)
    requires
        groups_absorbed(a, b),
        groups_absorbed(b, c),
    ensures
        groups_absorbed(a, c),
{
    assert forall|k: int| 0 <= k < a.len() && a[k] is Some implies #[trigger] group_absorbed(
        a[k]->0,
        c,
    ) by {
        assert(group_absorbed(a[k]->0, b));
        let k2 = choose|k2: int|
            0 <= k2 < b.len() && b[k2] is Some && forall|cc: usize|
                #[trigger] (a[k]->0).spec_cells().contains(cc) ==> (b[k2]->0).spec_cells().contains(
                    cc,
                );
        assert(group_absorbed(b[k2]->0, c));
        let k3 = choose|k3: int|
            0 <= k3 < c.len() && c[k3] is Some && forall|cc: usize|
                #[trigger] (b[k2]->0).spec_cells().contains(cc)
                    ==> (c[k3]->0).spec_cells().contains(cc);
        assert(0 <= k3 < c.len() && c[k3] is Some && forall|cc: usize|
            #[trigger] (a[k]->0).spec_cells().contains(cc) ==> (c[k3]->0).spec_cells().contains(
                cc,
            ));
    }
}

/// A covered segment stays covered when every old group is absorbed whole.
pub proof fn lemma_segment_absorbed<C: MatchColor>(
    ms_old: Seq<Option<BoardMatch<C>>>,
    ms_new: Seq<Option<BoardMatch<C>>>,
    line: Seq<usize>,
    j: int,
    ls: int,
)
    requires
        segment_in_alive(ms_old, line, j, ls),
        groups_absorbed(ms_old, ms_new),
    ensures
        segment_in_alive(ms_new, line, j, ls),
{
    let k = choose|k: int|
        0 <= k < ms_old.len() && ms_old[k] is Some && forall|t: int|
            0 <= t < ls ==> (#[trigger] (ms_old[k]->0).spec_cells().contains(line[j + t]));
    assert(group_absorbed(ms_old[k]->0, ms_new));
    let k2 = choose|k2: int|
        0 <= k2 < ms_new.len() && ms_new[k2] is Some && forall|c: usize|
            #[trigger] (ms_old[k]->0).spec_cells().contains(c)
                ==> (ms_new[k2]->0).spec_cells().contains(c);
    assert forall|t: int|
        0 <= t < ls implies (#[trigger] (ms_new[k2]->0).spec_cells().contains(line[j + t])) by {
        assert((ms_old[k]->0).spec_cells().contains(line[j + t]));
    }
    assert(0 <= k2 < ms_new.len() && ms_new[k2] is Some && forall|t: int|
        0 <= t < ls ==> (#[trigger] (ms_new[k2]->0).spec_cells().contains(line[j + t])));
}

/// Under well-behaved board colors, a live straight run is a live segment:
/// commutativity and transitivity turn "every cell matches the first" into
/// mutual matching.
pub proof fn lemma_live_run_segment<C: MatchColor>(
    colors: Seq<C>,
    line: Seq<usize>,
    j: int,
    ls: int,
)
    requires
        live_run(colors, line, j, ls),
        colors_well_behaved(colors),
        forall|t: int| 0 <= t < line.len() ==> line[t] < colors.len(),
    ensures
        live_segment(colors, line, j, ls),
{
    assert forall|s: int, t: int|
        0 <= s < ls && 0 <= t < ls implies (#[trigger] colors[line[j + s] as int]).spec_matches(
        #[trigger] colors[line[j + t] as int],
    ) by {
        let c0 = colors[line[j] as int];
        let cs = colors[line[j + s] as int];
        let ct = colors[line[j + t] as int];
        assert(c0.spec_matches(cs));
        assert(c0.spec_matches(ct));
        C::lemma_matches_commutative(c0, cs);
        assert(color_on_board(c0, colors)) by {
            assert(colors[line[j + 0] as int] == c0);
        }
        assert(color_on_board(cs, colors)) by {
            assert(colors[line[j + s] as int] == cs);
        }
        assert(color_on_board(ct, colors)) by {
            assert(colors[line[j + t] as int] == ct);
        }
        assert(cs.spec_matches(ct));
    }
    assert(colors[line[j + 0] as int].spec_can_start_match());
}

/// The neighbour list is symmetric: when `b` stands among the neighbours of
/// `a`, then `a` stands among the neighbours of `b`.
pub open spec fn neighbours_sym(nb: Seq<Vec<usize>>) -> bool {
    forall|a: int, u: int|
        0 <= a < nb.len() && 0 <= u < nb[a]@.len() && nb[a]@[u] < nb.len() ==> nb[#[trigger] nb[a]@[u] as int]@.contains(
            a as usize,
        )
}

/// Some cell of the first group lists a cell of the second group among its
/// neighbours.
pub open spec fn groups_adjacent<C: MatchColor>(
    g1: BoardMatch<C>,
    g2: BoardMatch<C>,
    nb: Seq<Vec<usize>>,
) -> bool {
    exists|a: int, u: int|
        0 <= a < g1.spec_cells().len() && 0 <= u < nb[g1.spec_cells()[a] as int]@.len()
            && g2.spec_cells().contains(#[trigger] nb[g1.spec_cells()[a] as int]@[u])
}

/// No two distinct alive groups of matching colors touch each other: with
/// neighbour merging on, the matcher unifies such groups, so none may survive
/// side by side.
pub open spec fn no_adjacent_matching<C: MatchColor>(
    ms: Seq<Option<BoardMatch<C>>>,
    nb: Seq<Vec<usize>>,
) -> bool {
    forall|k1: int, k2: int|
        #![trigger ms[k1], ms[k2]]
        0 <= k1 < ms.len() && 0 <= k2 < ms.len() && k1 != k2 && ms[k1] is Some && ms[k2] is Some
            && (ms[k1]->0).spec_color().spec_matches((ms[k2]->0).spec_color())
            ==> !groups_adjacent(ms[k1]->0, ms[k2]->0, nb)
}

/// Some alive group claims the cell.
pub open spec fn cell_in_alive<C: MatchColor>(ms: Seq<Option<BoardMatch<C>>>, c: usize) -> bool {
    exists|k: int|
        0 <= k < ms.len() && ms[k] is Some && (#[trigger] ms[k]->0).spec_cells().contains(c)
}

/// No alive group of a color matching the run's is listed on the cell index
/// at any of the given cells.
pub open spec fn no_matching_entries<C: MatchColor>(
    ms: Seq<Option<BoardMatch<C>>>,
    mb: Seq<Vec<usize>>,
    cs: Seq<usize>,
    rcolor: C,
) -> bool {
    forall|j: int, t: int|
        0 <= j < cs.len() && 0 <= t < mb[cs[j] as int]@.len() ==> {
            let k = #[trigger] mb[cs[j] as int]@[t] as int;
            !(0 <= k < ms.len() && ms[k] is Some && (ms[k]->0).spec_color().spec_matches(rcolor))
        }
}

/// Nor at any orthogonal neighbour of those cells.
pub open spec fn no_matching_neighbour_entries<C: MatchColor>(
    ms: Seq<Option<BoardMatch<C>>>,
    mb: Seq<Vec<usize>>,
    neighbours: Seq<Vec<usize>>,
    cs: Seq<usize>,
    rcolor: C,
) -> bool {
    forall|j: int, u: int, t: int|
        0 <= j < cs.len() && 0 <= u < neighbours[cs[j] as int]@.len() && 0 <= t < mb[#[trigger] neighbours[cs[j] as int]@[u] as int]@.len()
            ==> {
            let k = #[trigger] mb[neighbours[cs[j] as int]@[u] as int]@[t] as int;
            !(0 <= k < ms.len() && ms[k] is Some && (ms[k]->0).spec_color().spec_matches(rcolor))
        }
}

/// Some group in the table is still alive.
pub open spec fn exists_alive<C: MatchColor>(ms: Seq<Option<BoardMatch<C>>>) -> bool {
    exists|k: int| 0 <= k < ms.len() && ms[k] is Some
}

/// Indexing after pushing one element.
proof fn lemma_push_index<A>(s: Seq<A>, v: A)
    ensures
        s.push(v)[s.len() as int] == v,
        forall|i: int| 0 <= i < s.len() ==> s.push(v)[i] == s[i],
{
}

/// Membership in a sequence after pushing one element.
proof fn lemma_push_contains(s: Seq<usize>, x: usize, y: usize)
    ensures
        s.push(x).contains(y) <==> (s.contains(y) || y == x),
{
    if s.contains(y) {
        let k = choose|k: int| 0 <= k < s.len() && s[k] == y;
        assert(s.push(x)[k] == y);
    }
    assert(s.push(x)[s.len() as int] == x);
    if s.push(x).contains(y) && y != x {
        let k = choose|k: int| 0 <= k < s.push(x).len() && s.push(x)[k] == y;
        assert(k < s.len());
        assert(s[k] == y);
    }
}

/// Membership in a sequence after inserting one element.
proof fn lemma_insert_contains(s: Seq<usize>, j: int, x: usize, y: usize)
    requires
        0 <= j <= s.len(),
    ensures
        s.insert(j, x).contains(y) <==> (s.contains(y) || y == x),
{
    let t = s.insert(j, x);
    if s.contains(y) {
        let k = choose|k: int| 0 <= k < s.len() && s[k] == y;
        if k < j {
            assert(t[k] == y);
        } else {
            assert(t[k + 1] == y);
        }
    }
    assert(t[j] == x);
    if t.contains(y) && y != x {
        let k = choose|k: int| 0 <= k < t.len() && t[k] == y;
        if k < j {
            assert(s[k] == y);
        } else {
            assert(k != j);
            assert(s[k - 1] == y);
        }
    }
}

/// A subrange of a duplicate-free sequence is duplicate-free.
proof fn lemma_subrange_no_dup(s: Seq<usize>, lo: int, hi: int)
    requires
        0 <= lo <= hi <= s.len(),
        s.no_duplicates(),
    ensures
        s.subrange(lo, hi).no_duplicates(),
{
    let t = s.subrange(lo, hi);
    assert forall|a: int, b: int| 0 <= a < b < t.len() implies t[a] != t[b] by {
        assert(t[a] == s[lo + a]);
        assert(t[b] == s[lo + b]);
    }
}

/// Checks whether `x` occurs in `v`.
fn vec_contains(v: &Vec<usize>, x: usize) -> (r: bool)
    ensures
        r == v@.contains(x),
{
    let mut i: usize = 0;
    while i < v.len()
        invariant
            i <= v.len(),
            forall|k: int| 0 <= k < i ==> v@[k] != x,
        decreases v.len() - i,
    {
        if v[i] == x {
            return true;
        }
        i = i + 1;
    }
    false
}

/// Sorts the cell list ascending and removes duplicate entries, leaving
/// exactly the set of cells that was there before, each cell once.
fn sort_dedup(v: &mut Vec<usize>)
    ensures
        strictly_sorted(final (v)@),
        final (v)@.to_set() == old(v)@.to_set(),
        final (v)@.no_duplicates(),
{
    let mut out: Vec<usize> = Vec::new();
    let mut i: usize = 0;
    while i < v.len()
        invariant
            i <= v.len(),
            strictly_sorted(out@),
            out@.to_set() == v@.subrange(0, i as int).to_set(),
        decreases v.len() - i,
    {
        let x = v[i];
        let mut j: usize = 0;
        while j < out.len() && out[j] < x
            invariant
                j <= out.len(),
                forall|k: int| 0 <= k < j ==> out@[k] < x,
            decreases out.len() - j,
        {
            j = j + 1;
        }
        let ghost out_pre = out@;
        if j < out.len() && out[j] == x {
            proof {
                assert(out@[j as int] == x);
                assert(out@.contains(x));
                assert(v@.subrange(0, i + 1) =~= v@.subrange(0, i as int).push(x));
                assert forall|y: usize|
                    v@.subrange(0, i + 1).contains(y) <==> (v@.subrange(
                        0,
                        i as int,
                    ).contains(y) || y == x) by {
                    lemma_push_contains(v@.subrange(0, i as int), x, y);
                }
                assert(out@.to_set() =~= v@.subrange(0, i + 1).to_set());
            }
        } else {
            out.insert(j, x);
            proof {
                assert forall|y: usize| out@.contains(y) implies (out_pre.contains(y) || y == x) by {
                    lemma_insert_contains(out_pre, j as int, x, y);
                }
                assert forall|y: usize| (out_pre.contains(y) || y == x) implies out@.contains(
                    y,
                ) by {
                    lemma_insert_contains(out_pre, j as int, x, y);
                }
                assert(v@.subrange(0, i + 1) =~= v@.subrange(0, i as int).push(x));
                assert forall|y: usize|
                    v@.subrange(0, i + 1).contains(y) <==> (v@.subrange(
                        0,
                        i as int,
                    ).contains(y) || y == x) by {
                    lemma_push_contains(v@.subrange(0, i as int), x, y);
                }
                assert forall|y: usize|
                    out@.to_set().contains(y) == v@.subrange(0, i + 1).to_set().contains(y) by {
                    assert(out@.to_set().contains(y) == out@.contains(y));
                    assert(out_pre.to_set().contains(y) == out_pre.contains(y));
                    assert(v@.subrange(0, i + 1).to_set().contains(y) == v@.subrange(
                        0,
                        i + 1,
                    ).contains(y));
                    assert(v@.subrange(0, i as int).to_set().contains(y) == v@.subrange(
                        0,
                        i as int,
                    ).contains(y));
                }
                assert(out@.to_set() =~= v@.subrange(0, i + 1).to_set());
                assert forall|a: int, b: int| 0 <= a < b < out@.len() implies out@[a] < out@[b] by {
                    if b < j {
                    } else if a < j && b == j {
                    } else if a == j {
                        assert(out@[b] == out_pre[b - 1]);
                        assert(!(out_pre[j as int] < x) && out_pre[j as int] != x);
                    } else if a < j {
                        assert(out@[b] == out_pre[b - 1]);
                        assert(!(out_pre[j as int] < x) && out_pre[j as int] != x);
                    } else {
                        assert(out@[a] == out_pre[a - 1]);
                        assert(out@[b] == out_pre[b - 1]);
                    }
                }
            }
        }
        i = i + 1;
    }
    proof {
        assert(v@.subrange(0, v@.len() as int) =~= v@);
    }
    *v = out;
}

/// Appending cells to a group never shrinks the set of distinct cells.
proof fn lemma_concat_set_len(a: Seq<usize>, b: Seq<usize>)
    ensures
        (a + b).to_set().len() >= a.to_set().len(),
        (a + b).to_set().finite(),
{
    broadcast use vstd::seq_lib::seq_to_set_is_finite;

    assert forall|y: usize| a.to_set().contains(y) implies (a + b).to_set().contains(y) by {
        let k = choose|k: int| 0 <= k < a.len() && a[k] == y;
        assert((a + b)[k] == y);
    }
    vstd::set_lib::lemma_len_subset(a.to_set(), (a + b).to_set());
}

impl LineMatcherSettings {
    /// The least number of distinct cells any alive group can have under
    /// these settings.
    pub open spec fn spec_min_keep(self) -> int {
        if self.line_size as int >= self.spec_min_group() {
            self.line_size as int
        } else {
            self.spec_min_group()
        }
    }
}

/// Overwrites one entry of one cell's group list.
fn row_set(mb: &mut Vec<Vec<usize>>, c: usize, t: usize, v: usize)
    requires
        c < old(mb)@.len(),
        t < old(mb)@[c as int]@.len(),
    ensures
        final (mb)@.len() == old(mb)@.len(),
        forall|i: int| 0 <= i < old(mb)@.len() && i != c ==> final (mb)@[i] == old(mb)@[i],
        final (mb)@[c as int]@ == old(mb)@[c as int]@.update(t as int, v),
{
    let row = &mut mb[c];
    row.set(t, v);
}

/// Appends one entry to one cell's group list.
fn row_push(mb: &mut Vec<Vec<usize>>, c: usize, v: usize)
    requires
        c < old(mb)@.len(),
    ensures
        final (mb)@.len() == old(mb)@.len(),
        forall|i: int| 0 <= i < old(mb)@.len() && i != c ==> final (mb)@[i] == old(mb)@[i],
        final (mb)@[c as int]@ == old(mb)@[c as int]@.push(v),
{
    let row = &mut mb[c];
    row.push(v);
}

/// Removes one entry of one cell's group list.
fn row_remove(mb: &mut Vec<Vec<usize>>, c: usize, t: usize)
    requires
        c < old(mb)@.len(),
        t < old(mb)@[c as int]@.len(),
    ensures
        final (mb)@.len() == old(mb)@.len(),
        forall|i: int| 0 <= i < old(mb)@.len() && i != c ==> final (mb)@[i] == old(mb)@[i],
        final (mb)@[c as int]@ == old(mb)@[c as int]@.remove(t as int),
{
    let row = &mut mb[c];
    row.remove(t);
}

/// Looks up which alive groups already claim `cell`; the first one whose
/// color matches the run's color absorbs the run's cells and becomes the
/// merge target, every further distinct matching group is queued to be folded
/// into the target afterwards.
fn check_merge_groups_at_cell<C: MatchColor>(
    matches: &mut Vec<Option<BoardMatch<C>>>,
    match_board: &Vec<Vec<usize>>,
    group: &BoardMatch<C>,
    cell: usize,
    merge_group: &mut Option<usize>,
    groups_to_merge: &mut Vec<usize>,
    Ghost(min): Ghost<int>,
    Ghost(colors): Ghost<Seq<C>>,
)
    requires
        cell < match_board@.len(),
        board_wf(match_board@, old(matches)@.len() as int, match_board@.len() as int),
        matches_wf(old(matches)@, match_board@.len() as int, min),
        forall|k: int|
            0 <= k < group.spec_cells().len() ==> group.spec_cells()[k] < match_board@.len(),
        *old(merge_group) is Some ==> (*old(merge_group))->0 < old(matches)@.len() && old(
            matches,
        )@[(*old(merge_group))->0 as int] is Some,
        *old(merge_group) is None ==> old(groups_to_merge)@.len() == 0,
        forall|t: int|
            0 <= t < old(groups_to_merge)@.len() ==> #[trigger] old(groups_to_merge)@[t] < old(
                matches,
            )@.len() && old(matches)@[old(groups_to_merge)@[t] as int] is Some,
        old(groups_to_merge)@.no_duplicates(),
        *old(merge_group) is Some ==> !old(groups_to_merge)@.contains((*old(merge_group))->0),
        forall|t: int|
            0 <= t < old(groups_to_merge)@.len() ==> (old(matches)@[#[trigger] old(
            groups_to_merge)@[t] as int]->0).spec_color().spec_matches(group.spec_color()),
        colors.len() == match_board@.len(),
        groups_on_board(old(matches)@, colors),
        color_on_board(group.spec_color(), colors),
        colors_well_behaved(colors) ==> cells_match_wf(old(matches)@, colors)
            && group_cells_match(*group, colors),
    ensures
        groups_on_board(final (matches)@, colors),
        final (matches)@.len() == old(matches)@.len(),
        matches_wf(final (matches)@, match_board@.len() as int, min),
        forall|k: int|
            0 <= k < old(matches)@.len() ==> (final (matches)@[k] is Some <==> old(
                matches,
            )@[k] is Some),
        *old(merge_group) is Some ==> *final (merge_group) == *old(merge_group),
        *final (merge_group) is Some ==> (*final (merge_group))->0 < final (matches)@.len()
            && final (matches)@[(*final (merge_group))->0 as int] is Some,
        *final (merge_group) is None ==> final (groups_to_merge)@.len() == 0 && *old(
            merge_group,
        ) is None,
        forall|t: int|
            0 <= t < final (groups_to_merge)@.len() ==> #[trigger] final (groups_to_merge)@[t]
                < final (matches)@.len() && final (matches)@[final (
            groups_to_merge)@[t] as int] is Some,
        final (groups_to_merge)@.no_duplicates(),
        *final (merge_group) is Some ==> !final (groups_to_merge)@.contains(
            (*final (merge_group))->0,
        ),
        // Only the group that absorbed the run changes, and only on the call
        // that picked it: its cells grow by exactly the run's cells.
        *old(merge_group) is Some ==> final (matches)@ == old(matches)@,
        *old(merge_group) is None && *final (merge_group) is None ==> final (matches)@ == old(
            matches,
        )@,
        *old(merge_group) is None && *final (merge_group) is Some ==> {
            let mk = (*final (merge_group))->0 as int;
            &&& forall|k: int|
                0 <= k < old(matches)@.len() && k != mk ==> final (matches)@[k] == old(
                    matches,
                )@[k]
            &&& (final (matches)@[mk]->0).spec_color() == (old(matches)@[mk]->0).spec_color()
            &&& (final (matches)@[mk]->0).spec_cells() == (old(matches)@[mk]->0).spec_cells()
                + group.spec_cells()
        },
        *final (merge_group) is Some && *old(merge_group) is None ==> (final (matches)@[(*final (
        merge_group))->0 as int]->0).spec_color().spec_matches(group.spec_color()),
        // The queue only grows, and everything queued matches the run.
        forall|x: usize| old(groups_to_merge)@.contains(x) ==> final (groups_to_merge)@.contains(x),
        forall|t: int|
            0 <= t < final (groups_to_merge)@.len() ==> (final (matches)@[#[trigger] final (
            groups_to_merge)@[t] as int]->0).spec_color().spec_matches(group.spec_color()),
        // Every alive matching group listed at this cell is now the merge
        // target or queued behind it.
        forall|t: int|
            0 <= t < match_board@[cell as int]@.len() ==> {
                let k = #[trigger] match_board@[cell as int]@[t] as int;
                final (matches)@[k] is Some && (final (
                matches)@[k]->0).spec_color().spec_matches(group.spec_color())
                    ==> *final (merge_group) is Some && (k == (*final (merge_group))->0 as int
                    || final (groups_to_merge)@.contains(k as usize))
            },
        colors_well_behaved(colors) ==> cells_match_wf(final (matches)@, colors),
        // When nothing matching is listed at this cell, the scan is a no-op.
        (*old(merge_group) is None && (forall|t: int|
            0 <= t < match_board@[cell as int]@.len() ==> {
                let k = #[trigger] match_board@[cell as int]@[t] as int;
                !(0 <= k < old(matches)@.len() && old(matches)@[k] is Some && (old(
                matches,
                )@[k]->0).spec_color().spec_matches(group.spec_color()))
            })) ==> *final (merge_group) is None && final (groups_to_merge)@ == old(
            groups_to_merge,
        )@,
{
    let ghost ncells = match_board@.len() as int;
    let entries = &match_board[cell];
    let mut t: usize = 0;
    while t < entries.len()
        invariant
            t <= entries.len(),
            entries@ == match_board@[cell as int]@,
            matches@.len() == old(matches)@.len(),
            matches_wf(matches@, ncells, min),
            forall|k: int|
                0 <= k < old(matches)@.len() ==> (matches@[k] is Some <==> old(
                    matches,
                )@[k] is Some),
            *old(merge_group) is Some ==> *merge_group == *old(merge_group),
            *merge_group is Some ==> (*merge_group)->0 < matches@.len() && matches@[(
            *merge_group)->0 as int] is Some,
            *merge_group is None ==> groups_to_merge@.len() == 0 && *old(merge_group) is None,
            forall|s: int|
                0 <= s < groups_to_merge@.len() ==> #[trigger] groups_to_merge@[s]
                    < matches@.len() && matches@[groups_to_merge@[s] as int] is Some,
            groups_to_merge@.no_duplicates(),
            *merge_group is Some ==> !groups_to_merge@.contains((*merge_group)->0),
            *old(merge_group) is Some ==> matches@ == old(matches)@,
            *old(merge_group) is None && *merge_group is None ==> matches@ == old(matches)@,
            *old(merge_group) is None && *merge_group is Some ==> {
                let mk = (*merge_group)->0 as int;
                &&& forall|k: int|
                    0 <= k < old(matches)@.len() && k != mk ==> matches@[k] == old(matches)@[k]
                &&& (matches@[mk]->0).spec_color() == (old(matches)@[mk]->0).spec_color()
                &&& (matches@[mk]->0).spec_cells() == (old(matches)@[mk]->0).spec_cells()
                    + group.spec_cells()
                &&& (matches@[mk]->0).spec_color().spec_matches(group.spec_color())
            },
            forall|x: usize|
                old(groups_to_merge)@.contains(x) ==> groups_to_merge@.contains(x),
            forall|s: int|
                0 <= s < groups_to_merge@.len() ==> (matches@[#[trigger] groups_to_merge@[s] as int]->0).spec_color().spec_matches(
                    group.spec_color(),
                ),
            forall|s: int|
                0 <= s < t ==> {
                    let k = #[trigger] entries@[s] as int;
                    matches@[k] is Some && (matches@[k]->0).spec_color().spec_matches(
                        group.spec_color(),
                    ) ==> *merge_group is Some && (k == (*merge_group)->0 as int
                        || groups_to_merge@.contains(k as usize))
                },
            (*old(merge_group) is None && (forall|t2: int|
                0 <= t2 < match_board@[cell as int]@.len() ==> {
                    let k = #[trigger] match_board@[cell as int]@[t2] as int;
                    !(0 <= k < old(matches)@.len() && old(matches)@[k] is Some && (old(
                    matches,
                    )@[k]->0).spec_color().spec_matches(group.spec_color()))
                })) ==> *merge_group is None && groups_to_merge@ == old(groups_to_merge)@,
            colors_well_behaved(colors) ==> cells_match_wf(matches@, colors),
        decreases entries.len() - t,
    {
        let k = entries[t];
        let mut is_match = false;
        match &matches[k] {
            Some(other) => {
                is_match = other.color().matches(group.color());
            },
            None => {},
        }
        if is_match {
            assert(matches@[k as int] is Some);
            let mg_opt = *merge_group;
            match mg_opt {
                Some(mg) => {
                    if mg != k {
                        if !vec_contains(groups_to_merge, k) {
                            let ghost tm_before = groups_to_merge@;
                            groups_to_merge.push(k);
                            proof {
                                lemma_push_index(tm_before, k);
                                assert forall|x: usize|
                                    tm_before.contains(x) implies groups_to_merge@.contains(
                                    x,
                                ) by {
                                    lemma_push_contains(tm_before, k, x);
                                }
                                assert(groups_to_merge@.contains(k)) by {
                                    lemma_push_contains(tm_before, k, k);
                                }
                                assert(groups_to_merge@.no_duplicates()) by {
                                    assert forall|a: int, b: int|
                                        0 <= a < b < groups_to_merge@.len() implies groups_to_merge@[a]
                                        != groups_to_merge@[b] by {
                                        if b == groups_to_merge@.len() - 1 {
                                            assert(groups_to_merge@[a] == tm_before[a]);
                                            assert(tm_before.contains(tm_before[a]));
                                        } else {
                                            assert(groups_to_merge@[a] == tm_before[a]);
                                            assert(groups_to_merge@[b] == tm_before[b]);
                                        }
                                    }
                                }
                            }
                        }
                    }
                },
                None => {
                    let slot = &mut matches[k];
                    let mut other = slot.take().unwrap();
                    let ghost other0 = other;
                    other.cells_mut().extend_from_slice(group.cells().as_slice());
                    proof {
                        assert(group_wf(other0, ncells, min));
                        assert(other.spec_cells() == other0.spec_cells() + group.spec_cells());
                        lemma_concat_set_len(other0.spec_cells(), group.spec_cells());
                        assert forall|ci: int|
                            0 <= ci < other.spec_cells().len() implies other.spec_cells()[ci]
                            < ncells by {
                            if ci < other0.spec_cells().len() {
                                assert(other.spec_cells()[ci] == other0.spec_cells()[ci]);
                            } else {
                                assert(other.spec_cells()[ci] == group.spec_cells()[ci
                                    - other0.spec_cells().len()]);
                            }
                        }
                        assert(group_wf(other, ncells, min));
                        if colors_well_behaved(colors) {
                            assert(group_cells_match(other0, colors));
                            assert(group_cells_match(*group, colors));
                            assert forall|ci: int|
                                0 <= ci < other.spec_cells().len() implies other.spec_color().spec_matches(
                                colors[other.spec_cells()[ci] as int],
                            ) by {
                                if ci < other0.spec_cells().len() {
                                    assert(other.spec_cells()[ci] == other0.spec_cells()[ci]);
                                } else {
                                    let gi = ci - other0.spec_cells().len();
                                    assert(other.spec_cells()[ci] == group.spec_cells()[gi]);
                                    assert(group.spec_color().spec_matches(
                                        colors[group.spec_cells()[gi] as int],
                                    ));
                                    assert(other0.spec_color().spec_matches(
                                        group.spec_color(),
                                    ));
                                }
                            }
                            assert(group_cells_match(other, colors));
                        }
                    }
                    *slot = Some(other);
                    *merge_group = Some(k);
                },
            }
        }
        t = t + 1;
    }
}


/// Rewrites one cell's entry list when group `k` dies into `merged`: every
/// `k` entry becomes `merged`, and duplicate `merged` entries the rewrite
/// would leave behind are dropped again.
fn remap_cell(mb: &mut Vec<Vec<usize>>, cellx: usize, k: usize, merged: usize)
    requires
        cellx < old(mb)@.len(),
        k != merged,
    ensures
        final (mb)@.len() == old(mb)@.len(),
        forall|c: int| 0 <= c < old(mb)@.len() && c != cellx ==> final (mb)@[c] == old(mb)@[c],
        old(mb)@[cellx as int]@.contains(k) ==> final (mb)@[cellx as int]@.contains(merged),
        !old(mb)@[cellx as int]@.contains(k) ==> final (mb)@[cellx as int]@ == old(
            mb,
        )@[cellx as int]@,
        forall|v: usize|
            v != k && v != merged && old(mb)@[cellx as int]@.contains(v) ==> final (
            mb)@[cellx as int]@.contains(v),
        forall|v: usize|
            final (mb)@[cellx as int]@.contains(v) ==> old(mb)@[cellx as int]@.contains(v) || v
                == merged,
{
    let rl = mb[cellx].len();
    let ghost row0 = mb@[cellx as int]@;
    if rl == 0 {
        return;
    }
    let mut remove_after: usize = rl - 1;
    let mut t: usize = 0;
    while t < rl
        invariant
            cellx < mb@.len(),
            mb@.len() == old(mb)@.len(),
            forall|c: int| 0 <= c < old(mb)@.len() && c != cellx ==> mb@[c] == old(mb)@[c],
            mb@[cellx as int]@.len() == rl,
            t <= rl,
            remove_after < rl,
            forall|t2: int|
                0 <= t2 < rl ==> mb@[cellx as int]@[t2] == (if t2 < t && row0[t2] == k {
                    merged
                } else {
                    row0[t2]
                }),
            (exists|t2: int| 0 <= t2 < t && row0[t2] == k) ==> (mb@[cellx as int]@[remove_after as int]
                == merged && row0[remove_after as int] == k),
            (forall|t2: int| 0 <= t2 < t ==> row0[t2] != k) ==> remove_after == rl - 1
                && mb@[cellx as int]@ == row0,
        decreases rl - t,
    {
        if mb[cellx][t] == k {
            row_set(mb, cellx, t, merged);
            remove_after = t;
        } else {
            proof {
                if forall|t2: int| 0 <= t2 < t + 1 ==> row0[t2] != k {
                    assert(mb@[cellx as int]@ =~= row0);
                }
            }
        }
        t = t + 1;
    }
    proof {
        if forall|t2: int| 0 <= t2 < rl ==> row0[t2] != k {
            assert(!row0.contains(k));
            assert(mb@[cellx as int]@ =~= row0);
        } else {
            assert(row0.contains(k)) by {
                let t2 = choose|t2: int| 0 <= t2 < rl && row0[t2] == k;
            }
        }
    }
    let ghost row1 = mb@[cellx as int]@;
    proof {
        assert(mb@[cellx as int]@.subrange(0, rl as int) =~= row1.subrange(0, rl as int));
    }
    let mut t2: usize = rl;
    while t2 > remove_after + 1
        invariant
            cellx < mb@.len(),
            mb@.len() == old(mb)@.len(),
            forall|c: int| 0 <= c < old(mb)@.len() && c != cellx ==> mb@[c] == old(mb)@[c],
            remove_after < t2,
            t2 <= mb@[cellx as int]@.len(),
            forall|w: int| 0 <= w < t2 ==> mb@[cellx as int]@[w] == row1[w],
            forall|v: usize|
                v != merged && row1.contains(v) ==> mb@[cellx as int]@.contains(v),
            forall|v: usize| mb@[cellx as int]@.contains(v) ==> row1.contains(v),
            !row0.contains(k) ==> remove_after == rl - 1 && row1 == row0 && mb@[cellx as int]@
                == row0,
            t2 <= row1.len(),
        decreases t2,
    {
        t2 = t2 - 1;
        let ghost row_pre = mb@[cellx as int]@;
        if mb[cellx][t2] == merged {
            row_remove(mb, cellx, t2);
            proof {
                assert(mb@[cellx as int]@ == row_pre.remove(t2 as int));
                row_pre.remove_ensures(t2 as int);
                assert forall|w: int| 0 <= w < t2 implies mb@[cellx as int]@[w] == row1[w] by {
                    assert(row_pre.remove(t2 as int)[w] == row_pre[w]);
                }
                assert forall|v: usize|
                    v != merged && row1.contains(v) implies mb@[cellx as int]@.contains(v) by {
                    assert(row_pre.contains(v));
                    let w = choose|w: int| 0 <= w < row_pre.len() && row_pre[w] == v;
                    assert(w != t2);
                    if w < t2 {
                        assert(mb@[cellx as int]@[w] == v);
                    } else {
                        assert(mb@[cellx as int]@[w - 1] == v);
                    }
                }
                assert forall|v: usize|
                    mb@[cellx as int]@.contains(v) implies row1.contains(v) by {
                    let w = choose|w: int|
                        0 <= w < mb@[cellx as int]@.len() && mb@[cellx as int]@[w] == v;
                    if w < t2 {
                        assert(row_pre[w] == v);
                    } else {
                        assert(row_pre[w + 1] == v);
                    }
                    assert(row_pre.contains(v));
                }
                if !row0.contains(k) {
                    assert(false);
                }
            }
        }
    }
    proof {
        if row0.contains(k) {
            let t3 = choose|t3: int| 0 <= t3 < rl && row0[t3] == k;
            assert(row1[remove_after as int] == merged);
            assert(mb@[cellx as int]@[remove_after as int] == row1[remove_after as int]);
            assert(mb@[cellx as int]@.contains(merged));
        }
        assert forall|v: usize|
            v != k && v != merged && row0.contains(v) implies mb@[cellx as int]@.contains(
            v,
        ) by {
            assert(row1.contains(v)) by {
                let w = choose|w: int| 0 <= w < rl && row0[w] == v;
                assert(row1[w] == v);
            }
        }
        assert forall|v: usize|
            mb@[cellx as int]@.contains(v) implies row0.contains(v) || v == merged by {
            if v != merged {
                assert(row1.contains(v));
                let w = choose|w: int| 0 <= w < row1.len() && row1[w] == v;
                assert(row0[w] == v);
            }
        }
    }
}

/// Folds every queued secondary group into the merge target: the secondary's
/// cells are remapped to the target on the cell-to-group index and appended
/// to the target's cell list, and the secondary dies.
fn fold_groups<C: MatchColor>(
    settings: &LineMatcherSettings,
    group: BoardMatch<C>,
    merged: usize,
    groups_to_merge: &Vec<usize>,
    matches: &mut Vec<Option<BoardMatch<C>>>,
    match_board: &mut Vec<Vec<usize>>,
    Ghost(colors): Ghost<Seq<C>>,
    Ghost(ms0): Ghost<Seq<Option<BoardMatch<C>>>>,
    Ghost(mb0): Ghost<Seq<Vec<usize>>>,
)
    requires
        ({
            let ncells = old(match_board)@.len() as int;
            let min = settings.spec_min_keep();
            let run = group.spec_cells();
            let rcolor = group.spec_color();
            let wb = colors_well_behaved(colors);
            &&& merged < old(matches)@.len()
            &&& old(matches)@[merged as int] is Some
            &&& matches_wf(old(matches)@, ncells, min)
            &&& board_wf(old(match_board)@, old(matches)@.len() as int, ncells)
            &&& board_complete(old(matches)@, old(match_board)@)
            &&& groups_to_merge@.no_duplicates()
            &&& !groups_to_merge@.contains(merged)
            &&& forall|s: int|
                0 <= s < groups_to_merge@.len() ==> #[trigger] groups_to_merge@[s] < old(
                    matches,
                )@.len() && old(matches)@[groups_to_merge@[s] as int] is Some
            &&& forall|s: int|
                0 <= s < groups_to_merge@.len() ==> (old(matches)@[#[trigger] groups_to_merge@[s] as int]->0).spec_color().spec_matches(
                    rcolor,
                )
            &&& ms0.len() == old(matches)@.len()
            &&& forall|k: int| 0 <= k < ms0.len() && k != merged ==> old(matches)@[k] == ms0[k]
            &&& ms0[merged as int] is Some
            &&& (old(matches)@[merged as int]->0).spec_color() == (
            ms0[merged as int]->0).spec_color()
            &&& (old(matches)@[merged as int]->0).spec_cells() == (
            ms0[merged as int]->0).spec_cells() + run
            &&& (old(matches)@[merged as int]->0).spec_color().spec_matches(rcolor)
            &&& mb0.len() == ncells
            &&& forall|j: int|
                0 <= j < run.len() ==> #[trigger] cell_claim(
                    old(matches)@,
                    mb0,
                    run[j] as int,
                    rcolor,
                    Some(merged),
                    groups_to_merge@,
                )
            &&& board_complete(ms0, mb0)
            &&& forall|j: int| 0 <= j < run.len() ==> run[j] < ncells
            &&& colors.len() == ncells
            &&& groups_on_board(old(matches)@, colors)
            &&& groups_on_board(ms0, colors)
            &&& color_on_board(rcolor, colors)
            &&& wb ==> cells_match_wf(old(matches)@, colors) && disjoint_matching(ms0)
                && group_cells_match(group, colors)
        }),
    ensures
        final (match_board)@.len() == old(match_board)@.len(),
        final (matches)@.len() == old(matches)@.len(),
        board_wf(
            final (match_board)@,
            final (matches)@.len() as int,
            old(match_board)@.len() as int,
        ),
        matches_wf(final (matches)@, old(match_board)@.len() as int, settings.spec_min_keep()),
        board_complete(final (matches)@, final (match_board)@),
        final (matches)@[merged as int] is Some,
        (final (matches)@[merged as int]->0).spec_color() == (
        old(matches)@[merged as int]->0).spec_color(),
        groups_on_board(final (matches)@, colors),
        colors_well_behaved(colors) ==> cells_match_wf(final (matches)@, colors)
            && disjoint_matching(final (matches)@),
        // The fold touches only the target and the queued secondaries: the
        // secondaries die, their cells move into the target, and the target
        // keeps everything it had.
        forall|k: int|
            0 <= k < old(matches)@.len() && k != merged && !groups_to_merge@.contains(
                k as usize,
            ) ==> final (matches)@[k] == old(matches)@[k],
        forall|s: int|
            0 <= s < groups_to_merge@.len() ==> final (matches)@[#[trigger] groups_to_merge@[s] as int] is None,
        forall|c: usize|
            (old(matches)@[merged as int]->0).spec_cells().contains(c) ==> (#[trigger] (final (
            matches)@[merged as int]->0).spec_cells().contains(c)),
        forall|s: int, c: usize|
            0 <= s < groups_to_merge@.len() && #[trigger] (old(
                matches,
            )@[groups_to_merge@[s] as int]->0).spec_cells().contains(c) ==> (final (
            matches)@[merged as int]->0).spec_cells().contains(c),
        forall|c: usize|
            #[trigger] (final (matches)@[merged as int]->0).spec_cells().contains(c) ==> ((old(
                matches,
            )@[merged as int]->0).spec_cells().contains(c) || exists|s: int|
                0 <= s < groups_to_merge@.len() && (old(
                    matches,
                )@[#[trigger] groups_to_merge@[s] as int]->0).spec_cells().contains(c)),
{
    let ghost ncells = match_board@.len() as int;
    let ghost min = settings.spec_min_keep();
    let ghost run = group.spec_cells();
    let ghost rcolor = group.spec_color();
    let ghost wb = colors_well_behaved(colors);
    let ghost tm = groups_to_merge@;
    let nm = matches.len();
    proof {
        assert(matches@.len() <= usize::MAX) by {
            assert(nm as int == matches@.len());
        }
    }
    let mut ti: usize = 0;
    while ti < groups_to_merge.len()
        invariant
            ti <= tm.len(),
            match_board@.len() == ncells,
            matches@.len() == old(matches)@.len(),
            matches_wf(matches@, ncells, min),
            board_wf(match_board@, matches@.len() as int, ncells),
            board_complete(matches@, match_board@),
            merged < matches@.len(),
            matches@[merged as int] is Some,
            (matches@[merged as int]->0).spec_color() == (
            old(matches)@[merged as int]->0).spec_color(),
            forall|k: int|
                0 <= k < matches@.len() && k != merged && !tm.subrange(0, ti as int).contains(
                    k as usize,
                ) ==> matches@[k] == old(matches)@[k],
            forall|s: int| 0 <= s < ti ==> matches@[#[trigger] tm[s] as int] is None,
            forall|c: usize|
                #[trigger] (matches@[merged as int]->0).spec_cells().contains(c) ==> ((old(
                    matches,
                )@[merged as int]->0).spec_cells().contains(c) || exists|s: int|
                    0 <= s < ti && (old(matches)@[#[trigger] tm[s] as int]->0).spec_cells().contains(
                        c,
                    )),
            forall|c: usize|
                (old(matches)@[merged as int]->0).spec_cells().contains(c)
                    ==> (#[trigger] (matches@[merged as int]->0).spec_cells().contains(c)),
            forall|s: int, c: usize|
                0 <= s < ti && #[trigger] (old(matches)@[tm[s] as int]->0).spec_cells().contains(
                    c,
                ) ==> (matches@[merged as int]->0).spec_cells().contains(c),
            groups_on_board(matches@, colors),
            wb ==> cells_match_wf(matches@, colors),
        decreases tm.len() - ti,
    {
        let k = groups_to_merge[ti];
        proof {
            assert(tm[ti as int] == k);
            assert(!tm.subrange(0, ti as int).contains(k)) by {
                if tm.subrange(0, ti as int).contains(k) {
                    let s = choose|s: int|
                        0 <= s < ti && #[trigger] tm.subrange(0, ti as int)[s] == k;
                    assert(tm[s] == k);
                }
            }
            assert(matches@[k as int] == old(matches)@[k as int]);
            assert(matches@[k as int] is Some);
        }
        proof {
            assert forall|c2: int|
                0 <= c2 < (matches@[k as int]->0).spec_cells().len() implies match_board@[(
            #[trigger] (matches@[k as int]->0).spec_cells()[c2]) as int]@.contains(k) by {}
            if wb {
                assert(group_cells_match(matches@[k as int]->0, colors));
                assert(group_cells_match(old(matches)@[k as int]->0, colors));
            }
        }
        let slot = &mut matches[k];
        let mut other = slot.take().unwrap();
        proof {
            assert(group_wf(other, ncells, min));
        }
        let ghost other_cells = other.spec_cells();
        let ghost ms_in = matches@;
        let mut ci: usize = 0;
        while ci < other.cells().len()
            invariant
                ci <= other_cells.len(),
                other.spec_cells() == other_cells,
                forall|c2: int| 0 <= c2 < other_cells.len() ==> other_cells[c2] < ncells,
                match_board@.len() == ncells,
                matches@ == ms_in,
                matches@.len() == old(matches)@.len(),
                matches_wf(matches@, ncells, min),
                board_wf(match_board@, matches@.len() as int, ncells),
                board_complete(matches@, match_board@),
                merged < matches@.len(),
                k < matches@.len(),
                k != merged,
                matches@[merged as int] is Some,
                matches@[k as int] is None,
                forall|c2: int|
                    0 <= c2 < ci ==> match_board@[#[trigger] other_cells[c2] as int]@.contains(
                        merged,
                    ),
                forall|c2: int|
                    ci <= c2 < other_cells.len() ==> match_board@[
                    #[trigger] other_cells[c2] as int]@.contains(k) || match_board@[
                    other_cells[c2] as int]@.contains(merged),
            decreases other_cells.len() - ci,
        {
            let cellx = other.cells()[ci];
            let ghost mb_pre = match_board@;
            remap_cell(match_board, cellx, k, merged);
            proof {
                assert(match_board@[cellx as int]@.contains(merged)) by {
                    if mb_pre[cellx as int]@.contains(k) {
                    } else {
                        assert(mb_pre[cellx as int]@.contains(merged));
                        assert(match_board@[cellx as int]@ == mb_pre[cellx as int]@);
                    }
                }
                assert forall|c2: int|
                    0 <= c2 < ci + 1 implies match_board@[#[trigger] other_cells[c2] as int]@.contains(
                    merged,
                ) by {
                    if c2 < ci {
                        if other_cells[c2] == cellx {
                            if mb_pre[cellx as int]@.contains(k) {
                            } else {
                                assert(match_board@[cellx as int]@ == mb_pre[cellx as int]@);
                            }
                        } else {
                            assert(match_board@[other_cells[c2] as int] == mb_pre[other_cells[c2] as int]);
                        }
                    }
                }
                assert forall|c2: int|
                    ci + 1 <= c2 < other_cells.len() implies match_board@[
                #[trigger] other_cells[c2] as int]@.contains(k) || match_board@[
                other_cells[c2] as int]@.contains(merged) by {
                    if other_cells[c2] == cellx {
                        if mb_pre[cellx as int]@.contains(k) {
                            assert(match_board@[cellx as int]@.contains(merged));
                        } else {
                            assert(match_board@[cellx as int]@ == mb_pre[cellx as int]@);
                        }
                    } else {
                        assert(match_board@[other_cells[c2] as int] == mb_pre[other_cells[c2] as int]);
                    }
                }
                assert(board_wf(match_board@, matches@.len() as int, ncells)) by {
                    assert forall|c: int, t: int|
                        0 <= c < match_board@.len() && 0 <= t < match_board@[c]@.len() implies #[trigger] match_board@[c]@[t]
                        < matches@.len() by {
                        if c == cellx as int {
                            assert(match_board@[c]@.contains(match_board@[c]@[t]));
                            let v = match_board@[c]@[t];
                            if v != merged {
                                assert(mb_pre[c]@.contains(v));
                                let w = choose|w: int|
                                    0 <= w < mb_pre[c]@.len() && mb_pre[c]@[w] == v;
                            }
                        }
                    }
                }
                assert(board_complete(matches@, match_board@)) by {
                    assert forall|q: int, qi: int|
                        #![trigger (matches@[q]->0).spec_cells()[qi]]
                        0 <= q < matches@.len() && matches@[q] is Some && 0 <= qi < (
                        matches@[q]->0).spec_cells().len() implies match_board@[(
                    matches@[q]->0).spec_cells()[qi] as int]@.contains(q as usize) by {
                        let c = (matches@[q]->0).spec_cells()[qi] as int;
                        assert(group_wf(matches@[q]->0, ncells, min));
                        assert(0 <= c < ncells);
                        assert(mb_pre[c]@.contains(q as usize));
                        if c == cellx as int {
                            assert(q != k as int);
                            if q == merged as int {
                                if mb_pre[cellx as int]@.contains(k) {
                                } else {
                                    assert(match_board@[c]@ == mb_pre[c]@);
                                }
                            } else {
                                assert(q as usize != k && q as usize != merged);
                            }
                        } else {
                            assert(match_board@[c] == mb_pre[c]);
                        }
                    }
                }
            }
            ci = ci + 1;
        }
        let slot2 = &mut matches[merged];
        let mut main = slot2.take().unwrap();
        let ghost main0 = main;
        main.cells_mut().append(other.cells_mut());
        proof {
            assert(main.spec_cells() == main0.spec_cells() + other_cells);
            lemma_concat_set_len(main0.spec_cells(), other_cells);
            assert(group_wf(main0, ncells, min));
            assert forall|cc: int|
                0 <= cc < main.spec_cells().len() implies main.spec_cells()[cc] < ncells by {
                if cc < main0.spec_cells().len() {
                    assert(main.spec_cells()[cc] == main0.spec_cells()[cc]);
                } else {
                    assert(main.spec_cells()[cc] == other_cells[cc - main0.spec_cells().len()]);
                }
            }
            assert(group_wf(main, ncells, min));
            if wb {
                assert(group_cells_match(main0, colors));
                assert forall|cc: int|
                    0 <= cc < main.spec_cells().len() implies main.spec_color().spec_matches(
                    colors[#[trigger] main.spec_cells()[cc] as int],
                ) by {
                    if cc < main0.spec_cells().len() {
                        assert(main.spec_cells()[cc] == main0.spec_cells()[cc]);
                        assert(main0.spec_color().spec_matches(
                            colors[main0.spec_cells()[cc] as int],
                        ));
                    } else {
                        let oc = cc - main0.spec_cells().len();
                        assert(main.spec_cells()[cc] == other_cells[oc]);
                        let ocolor = (old(matches)@[k as int]->0).spec_color();
                        assert(group_cells_match(old(matches)@[k as int]->0, colors));
                        assert((old(matches)@[k as int]->0).spec_cells() == other_cells);
                        assert(ocolor.spec_matches(colors[other_cells[oc] as int]));
                        assert(color_on_board(ocolor, colors));
                        assert(color_on_board(main0.spec_color(), colors));
                        assert(color_on_board(colors[other_cells[oc] as int], colors));
                        assert(ocolor.spec_matches(rcolor));
                        C::lemma_matches_commutative(ocolor, rcolor);
                        assert(main0.spec_color().spec_matches(rcolor));
                        assert(main0.spec_color().spec_matches(ocolor));
                        assert(main0.spec_color().spec_matches(
                            colors[other_cells[oc] as int],
                        ));
                    }
                }
                assert(group_cells_match(main, colors));
            }
        }
        *slot2 = Some(main);
        proof {
            assert forall|c: usize|
                (old(matches)@[merged as int]->0).spec_cells().contains(
                    c,
                ) implies (#[trigger] (matches@[merged as int]->0).spec_cells().contains(c)) by {
                assert(main0.spec_cells().contains(c));
                let w = choose|w: int|
                    0 <= w < main0.spec_cells().len() && main0.spec_cells()[w] == c;
                assert(main.spec_cells()[w] == c);
            }
            assert forall|s: int, c: usize|
                0 <= s < ti + 1 && #[trigger] (old(
                    matches,
                )@[tm[s] as int]->0).spec_cells().contains(c) implies (
            matches@[merged as int]->0).spec_cells().contains(c) by {
                if s < ti {
                    assert(main0.spec_cells().contains(c));
                    let w = choose|w: int|
                        0 <= w < main0.spec_cells().len() && main0.spec_cells()[w] == c;
                    assert(main.spec_cells()[w] == c);
                } else {
                    assert(other_cells.contains(c));
                    let w = choose|w: int| 0 <= w < other_cells.len() && other_cells[w] == c;
                    assert(main.spec_cells()[main0.spec_cells().len() + w] == c);
                }
            }
            assert forall|c: usize|
                #[trigger] (matches@[merged as int]->0).spec_cells().contains(c) implies ((old(
                    matches,
                )@[merged as int]->0).spec_cells().contains(c) || exists|s: int|
                    0 <= s < ti + 1 && (old(matches)@[#[trigger] tm[s] as int]->0).spec_cells().contains(
                        c,
                    )) by {
                let w = choose|w: int|
                    0 <= w < (matches@[merged as int]->0).spec_cells().len() && (
                    matches@[merged as int]->0).spec_cells()[w] == c;
                if w < main0.spec_cells().len() {
                    assert(main0.spec_cells().contains(c));
                } else {
                    assert(other_cells[w - main0.spec_cells().len()] == c);
                    assert((old(matches)@[tm[ti as int] as int]->0).spec_cells().contains(c));
                }
            }
            assert forall|k2: int|
                0 <= k2 < matches@.len() && k2 != merged && !tm.subrange(0, ti + 1).contains(
                    k2 as usize,
                ) implies matches@[k2] == old(matches)@[k2] by {
                assert(tm.subrange(0, ti + 1)[ti as int] == k);
                assert(tm.subrange(0, ti + 1).contains(k));
                assert(k2 != k as int);
                if tm.subrange(0, ti as int).contains(k2 as usize) {
                    let w = choose|w: int|
                        0 <= w < ti && #[trigger] tm.subrange(0, ti as int)[w] == k2 as usize;
                    assert(tm.subrange(0, ti + 1)[w] == k2 as usize);
                    assert(tm.subrange(0, ti + 1).contains(k2 as usize));
                }
                assert(!tm.subrange(0, ti as int).contains(k2 as usize));
            }
            assert forall|s: int| 0 <= s < ti + 1 implies matches@[#[trigger] tm[s] as int] is None by {
                if s < ti {
                    assert(tm[s] as int != merged as int);
                }
            }
        }
        ti = ti + 1;
    }
    proof {
        if wb {
            assert(disjoint_matching(matches@)) by {
                assert forall|k1: int, k2: int|
                    #![trigger matches@[k1], matches@[k2]]
                    0 <= k1 < matches@.len() && 0 <= k2 < matches@.len() && k1 != k2
                        && matches@[k1] is Some && matches@[k2] is Some && (
                    matches@[k1]->0).spec_color().spec_matches((matches@[k2]->0).spec_color())
                        implies groups_disjoint(matches@[k1]->0, matches@[k2]->0) by {
                    assert forall|ci: int|
                        0 <= ci < (matches@[k1]->0).spec_cells().len() implies !(
                        matches@[k2]->0).spec_cells().contains(
                        #[trigger] (matches@[k1]->0).spec_cells()[ci],
                    ) by {
                        if (matches@[k2]->0).spec_cells().contains(
                            (matches@[k1]->0).spec_cells()[ci],
                        ) {
                            let c = (matches@[k1]->0).spec_cells()[ci];
                            lemma_fold_no_share::<C>(
                                matches@,
                                old(matches)@,
                                ms0,
                                mb0,
                                tm,
                                merged,
                                run,
                                rcolor,
                                colors,
                                k1,
                                k2,
                                c,
                            );
                        }
                    }
                }
            }
        }
    }
}

/// No cell can be shared between two distinct matching groups after the
/// fold, given a well-behaved color system.
proof fn lemma_fold_no_share<C: MatchColor>(
    ms: Seq<Option<BoardMatch<C>>>,
    msf: Seq<Option<BoardMatch<C>>>,
    ms0: Seq<Option<BoardMatch<C>>>,
    mb0: Seq<Vec<usize>>,
    tm: Seq<usize>,
    merged: usize,
    run: Seq<usize>,
    rcolor: C,
    colors: Seq<C>,
    k1: int,
    k2: int,
    c: usize,
)
    requires
        colors_well_behaved(colors),
        disjoint_matching(ms0),
        ms.len() <= usize::MAX,
        ms.len() == msf.len(),
        ms0.len() == msf.len(),
        0 <= k1 < ms.len(),
        0 <= k2 < ms.len(),
        k1 != k2,
        ms[k1] is Some,
        ms[k2] is Some,
        (ms[k1]->0).spec_color().spec_matches((ms[k2]->0).spec_color()),
        (ms[k1]->0).spec_cells().contains(c),
        merged < ms.len(),
        // State relations established by the fold.
        forall|k: int|
            0 <= k < ms.len() && k != merged && !tm.contains(k as usize) ==> ms[k] == msf[k],
        forall|s: int| 0 <= s < tm.len() ==> ms[#[trigger] tm[s] as int] is None,
        ms[merged as int] is Some,
        (ms[merged as int]->0).spec_color() == (msf[merged as int]->0).spec_color(),
        forall|cc: usize|
            #[trigger] (ms[merged as int]->0).spec_cells().contains(cc) ==> ((
            msf[merged as int]->0).spec_cells().contains(cc) || exists|s: int|
                0 <= s < tm.len() && (msf[#[trigger] tm[s] as int]->0).spec_cells().contains(cc)),
        // How the pre-fold state relates to the state at entry to the close.
        msf[merged as int] is Some,
        ms0[merged as int] is Some,
        forall|k: int| 0 <= k < ms0.len() && k != merged ==> msf[k] == ms0[k],
        (msf[merged as int]->0).spec_color() == (ms0[merged as int]->0).spec_color(),
        (msf[merged as int]->0).spec_cells() == (ms0[merged as int]->0).spec_cells() + run,
        (msf[merged as int]->0).spec_color().spec_matches(rcolor),
        forall|s: int|
            0 <= s < tm.len() ==> #[trigger] tm[s] < msf.len() && msf[tm[s] as int] is Some,
        forall|s: int|
            0 <= s < tm.len() ==> (msf[#[trigger] tm[s] as int]->0).spec_color().spec_matches(
                rcolor,
            ),
        !tm.contains(merged),
        forall|j: int|
            0 <= j < run.len() ==> #[trigger] cell_claim(
                msf,
                mb0,
                run[j] as int,
                rcolor,
                Some(merged),
                tm,
            ),
        board_complete(ms0, mb0),
        groups_on_board(ms, colors),
        groups_on_board(msf, colors),
        groups_on_board(ms0, colors),
        color_on_board(rcolor, colors),
    ensures
        !(ms[k2]->0).spec_cells().contains(c),
{
    if !(ms[k2]->0).spec_cells().contains(c) {
        return;
    }
    assert forall|kq: int|
        0 <= kq < ms.len() && ms[kq] is Some implies !tm.contains(kq as usize) by {
        if tm.contains(kq as usize) {
            let si = choose|si: int| 0 <= si < tm.len() && tm[si] == kq as usize;
            assert(ms[tm[si] as int] is None);
        }
    }
    if k1 != merged && k2 != merged {
        assert(!tm.contains(k1 as usize) && !tm.contains(k2 as usize));
        assert(ms[k1] == ms0[k1] && ms[k2] == ms0[k2]);
        assert(groups_disjoint(ms0[k1]->0, ms0[k2]->0));
        let w = choose|w: int|
            0 <= w < (ms0[k1]->0).spec_cells().len() && (ms0[k1]->0).spec_cells()[w] == c;
        assert(!(ms0[k2]->0).spec_cells().contains((ms0[k1]->0).spec_cells()[w]));
        assert(false);
    } else {
        let ko = if k1 == merged as int {
            k2
        } else {
            k1
        };
        // The other group is alive after the fold, so it was never queued,
        // and it is not the target itself.
        assert(ko != merged);
        assert(!tm.contains(ko as usize));
        assert(ms[ko] == msf[ko] && msf[ko] == ms0[ko]);
        let kocolor = (ms[ko]->0).spec_color();
        let mcolor = (ms[merged as int]->0).spec_color();
        assert(color_on_board(kocolor, colors));
        assert(color_on_board(mcolor, colors));
        assert(kocolor.spec_matches(mcolor) || mcolor.spec_matches(kocolor));
        C::lemma_matches_commutative(kocolor, mcolor);
        assert(kocolor.spec_matches(mcolor));
        assert(mcolor.spec_matches(rcolor));
        assert(kocolor.spec_matches(rcolor));
        // The shared cell came from the target's own cells, the run, or a
        // folded secondary.
        assert((ms[merged as int]->0).spec_cells().contains(c));
        if (msf[merged as int]->0).spec_cells().contains(c) {
            let w = choose|w: int|
                0 <= w < (msf[merged as int]->0).spec_cells().len() && (
                msf[merged as int]->0).spec_cells()[w] == c;
            if w < (ms0[merged as int]->0).spec_cells().len() {
                // Shared with the target's cells at entry: the entry states
                // were disjoint.
                assert((ms0[merged as int]->0).spec_cells()[w] == c);
                assert(groups_disjoint(ms0[ko]->0, ms0[merged as int]->0));
                let w2 = choose|w2: int|
                    0 <= w2 < (ms0[ko]->0).spec_cells().len() && (ms0[ko]->0).spec_cells()[w2]
                        == c;
                assert(!(ms0[merged as int]->0).spec_cells().contains(
                    (ms0[ko]->0).spec_cells()[w2],
                ));
            } else {
                // Shared with the run: the other group claimed a run cell, so
                // the merge scan would have queued it.
                let j = w - (ms0[merged as int]->0).spec_cells().len();
                assert(run[j] == c);
                let w2 = choose|w2: int|
                    0 <= w2 < (ms0[ko]->0).spec_cells().len() && (ms0[ko]->0).spec_cells()[w2]
                        == c;
                assert(mb0[c as int]@.contains(ko as usize));
                let t = choose|t: int| 0 <= t < mb0[c as int]@.len() && mb0[c as int]@[t] == ko as usize;
                assert(cell_claim(msf, mb0, run[j] as int, rcolor, Some(merged), tm));
                assert(msf[ko] is Some && (msf[ko]->0).spec_color().spec_matches(rcolor));
            }
        } else {
            // Shared with a folded secondary: transitivity carries the match
            // over to it, and the entry states were disjoint.
            let s = choose|s: int|
                0 <= s < tm.len() && (msf[#[trigger] tm[s] as int]->0).spec_cells().contains(c);
            let sk = tm[s] as int;
            assert(sk != merged);
            assert(msf[sk] == ms0[sk]);
            let scolor = (msf[sk]->0).spec_color();
            assert(color_on_board(scolor, colors));
            assert(scolor.spec_matches(rcolor));
            C::lemma_matches_commutative(scolor, rcolor);
            assert(kocolor.spec_matches(rcolor) && rcolor.spec_matches(scolor));
            assert(kocolor.spec_matches(scolor));
            assert(ko != sk) by {
                if ko == sk {
                    assert(tm.contains(ko as usize));
                }
            }
            assert(groups_disjoint(ms0[ko]->0, ms0[sk]->0));
            let w2 = choose|w2: int|
                0 <= w2 < (ms0[ko]->0).spec_cells().len() && (ms0[ko]->0).spec_cells()[w2] == c;
            assert(!(ms0[sk]->0).spec_cells().contains((ms0[ko]->0).spec_cells()[w2]));
        }
    }
}

/// The guarantee the merge scan leaves at one examined cell: every alive
/// group listed there whose color matches the run's is the merge target or
/// queued behind it.
pub open spec fn cell_claim<C: MatchColor>(
    ms: Seq<Option<BoardMatch<C>>>,
    mb: Seq<Vec<usize>>,
    c: int,
    rcolor: C,
    mg: Option<usize>,
    tm: Seq<usize>,
) -> bool {
    forall|t: int|
        0 <= t < mb[c]@.len() ==> {
            let k = #[trigger] mb[c]@[t] as int;
            0 <= k < ms.len() && ms[k] is Some && (ms[k]->0).spec_color().spec_matches(rcolor)
                ==> mg is Some && (k == mg->0 as int || tm.contains(k as usize))
        }
}

/// Completeness of the cell-to-group index, allowing for the one moment the
/// algorithm defers it: the merge target's freshly absorbed run cells get
/// their entries only after the merge scan.
pub open spec fn complete_except<C: MatchColor>(
    ms: Seq<Option<BoardMatch<C>>>,
    mb: Seq<Vec<usize>>,
    mg: Option<usize>,
    run: Seq<usize>,
) -> bool {
    forall|k: int, ci: int|
        #![trigger (ms[k]->0).spec_cells()[ci]]
        0 <= k < ms.len() && ms[k] is Some && 0 <= ci < (ms[k]->0).spec_cells().len() ==> (mb[(
        ms[k]->0).spec_cells()[ci] as int]@.contains(k as usize) || (mg is Some && k
            == mg->0 as int && run.contains((ms[k]->0).spec_cells()[ci])))
}

/// What the fold leaves of the alive cells: everything once claimed stays
/// claimed (the target inherits the secondaries), new claims come only from
/// the run, and the run sits whole inside the target.
proof fn lemma_fold_union<C: MatchColor>(
    ms_old: Seq<Option<BoardMatch<C>>>,
    msf: Seq<Option<BoardMatch<C>>>,
    msn: Seq<Option<BoardMatch<C>>>,
    tm: Seq<usize>,
    merged: usize,
    run: Seq<usize>,
)
    requires
        ms_old.len() == msf.len(),
        msf.len() == msn.len(),
        ms_old.len() <= usize::MAX,
        merged < ms_old.len(),
        ms_old[merged as int] is Some,
        msf[merged as int] is Some,
        msn[merged as int] is Some,
        forall|k: int| 0 <= k < msf.len() && k != merged ==> msf[k] == ms_old[k],
        (msf[merged as int]->0).spec_cells() == (ms_old[merged as int]->0).spec_cells() + run,
        forall|k: int|
            0 <= k < msn.len() && k != merged && !tm.contains(k as usize) ==> msn[k] == msf[k],
        forall|s: int| 0 <= s < tm.len() ==> msn[#[trigger] tm[s] as int] is None,
        forall|c: usize|
            (msf[merged as int]->0).spec_cells().contains(c) ==> (#[trigger] (
            msn[merged as int]->0).spec_cells().contains(c)),
        forall|s: int, c: usize|
            0 <= s < tm.len() && #[trigger] (msf[tm[s] as int]->0).spec_cells().contains(c)
                ==> (msn[merged as int]->0).spec_cells().contains(c),
        forall|s: int| 0 <= s < tm.len() ==> #[trigger] tm[s] < msf.len(),
        forall|s: int| 0 <= s < tm.len() ==> msf[#[trigger] tm[s] as int] is Some,
        forall|c: usize|
            #[trigger] (msn[merged as int]->0).spec_cells().contains(c) ==> ((
            msf[merged as int]->0).spec_cells().contains(c) || exists|s: int|
                0 <= s < tm.len() && (msf[#[trigger] tm[s] as int]->0).spec_cells().contains(
                    c,
                )),
    ensures
        forall|c: usize| cell_in_alive(ms_old, c) ==> cell_in_alive(msn, c),
        forall|c: usize|
            cell_in_alive(msn, c) ==> cell_in_alive(ms_old, c) || run.contains(c),
        forall|j: int|
            0 <= j < run.len() ==> (#[trigger] (msn[merged as int]->0).spec_cells().contains(
                run[j],
            )),
{
    let base = (ms_old[merged as int]->0).spec_cells().len() as int;
    assert forall|c: usize| cell_in_alive(ms_old, c) implies cell_in_alive(msn, c) by {
        let k = choose|k: int|
            0 <= k < ms_old.len() && ms_old[k] is Some && (
            #[trigger] ms_old[k]->0).spec_cells().contains(c);
        if k == merged as int {
            let w = choose|w: int|
                0 <= w < (ms_old[merged as int]->0).spec_cells().len() && (
                ms_old[merged as int]->0).spec_cells()[w] == c;
            assert((msf[merged as int]->0).spec_cells()[w] == c);
            assert((msf[merged as int]->0).spec_cells().contains(c));
            assert((msn[merged as int]->0).spec_cells().contains(c));
        } else if tm.contains(k as usize) {
            let si = choose|si: int| 0 <= si < tm.len() && #[trigger] tm[si] == k as usize;
            assert(tm[si] as int == k);
            assert(msf[k] == ms_old[k]);
            assert((msf[tm[si] as int]->0).spec_cells().contains(c));
            assert((msn[merged as int]->0).spec_cells().contains(c));
        } else {
            assert(msn[k] == msf[k] && msf[k] == ms_old[k]);
        }
    }
    assert forall|c: usize|
        cell_in_alive(msn, c) implies cell_in_alive(ms_old, c) || run.contains(c) by {
        let k = choose|k: int|
            0 <= k < msn.len() && msn[k] is Some && (
            #[trigger] msn[k]->0).spec_cells().contains(c);
        if k == merged as int {
            if (msf[merged as int]->0).spec_cells().contains(c) {
                let w = choose|w: int|
                    0 <= w < (msf[merged as int]->0).spec_cells().len() && (
                    msf[merged as int]->0).spec_cells()[w] == c;
                if w < base {
                    assert((ms_old[merged as int]->0).spec_cells()[w] == c);
                } else {
                    assert(run[w - base] == c);
                }
            } else {
                // The cell came from a folded secondary.
                assert(cell_in_alive(ms_old, c) || run.contains(c)) by {
                    if exists|si: int|
                        0 <= si < tm.len() && (#[trigger] msf[tm[si] as int]->0).spec_cells().contains(
                            c,
                        ) {
                        let si = choose|si: int|
                            0 <= si < tm.len() && (
                            #[trigger] msf[tm[si] as int]->0).spec_cells().contains(c);
                        assert(msf[tm[si] as int] == ms_old[tm[si] as int]) by {
                            assert(tm[si] as int != merged as int || tm[si] != merged);
                            if tm[si] as int == merged as int {
                                assert((msf[merged as int]->0).spec_cells().contains(c));
                            }
                        }
                        assert(ms_old[tm[si] as int] is Some);
                        assert(cell_in_alive(ms_old, c));
                    } else {
                        // The target's final cells come from its pre-fold
                        // cells or a folded secondary; both are excluded on
                        // this path.
                        assert((msn[merged as int]->0).spec_cells().contains(c));
                        assert((msf[merged as int]->0).spec_cells().contains(c) || exists|
                            si: int,
                        |
                            0 <= si < tm.len() && (msf[#[trigger] tm[si] as int]->0).spec_cells().contains(
                                c,
                            ));
                        assert(false);
                    }
                }
            }
        } else {
            if tm.contains(k as usize) {
                let si = choose|si: int| 0 <= si < tm.len() && #[trigger] tm[si] == k as usize;
                assert(tm[si] as int == k);
                assert(msn[k] is None);
                assert(false);
            }
            assert(msn[k] == msf[k] && msf[k] == ms_old[k]);
        }
    }
    assert forall|j: int|
        0 <= j < run.len() implies (#[trigger] (msn[merged as int]->0).spec_cells().contains(
        run[j],
    )) by {
        assert((msf[merged as int]->0).spec_cells()[base + j] == run[j]);
        assert((msf[merged as int]->0).spec_cells().contains(run[j]));
    }
}

/// Closes a run of at least `line_size` cells: the first alive group of a
/// matching color that already claims one of the run's cells (or, when
/// neighbour merging is on, touches it) absorbs the run, every further
/// matching group found is folded into that absorber, and a run touching
/// nothing is registered as a new group, provided it reaches the minimum
/// group size.  The contract pins the effects: a short or below-minimum
/// untouched run changes nothing, a qualifying untouched run is appended
/// with exactly its cells and indexed at each of them, claimed cells are
/// never lost, new claims come only from the run, every old group survives
/// whole inside a single alive group, and a qualifying run always lands
/// whole inside one alive group.  With neighbour merging on over a
/// symmetric neighbour list and well-behaved colors, no two alive groups of
/// matching colors touch each other afterwards: any matching group adjacent
/// to the run has been folded into its absorber.
#[verifier::rlimit(100)]
fn close_match<C: MatchColor>(
    settings: &LineMatcherSettings,
    neighbours: &Vec<Vec<usize>>,
    group: BoardMatch<C>,
    matches: &mut Vec<Option<BoardMatch<C>>>,
    match_board: &mut Vec<Vec<usize>>,
    Ghost(colors): Ghost<Seq<C>>,
)
    requires
        neighbours_wf(neighbours@, old(match_board)@.len() as int),
        board_wf(old(match_board)@, old(matches)@.len() as int, old(match_board)@.len() as int),
        matches_wf(old(matches)@, old(match_board)@.len() as int, settings.spec_min_keep()),
        board_complete(old(matches)@, old(match_board)@),
        group.spec_cells().no_duplicates(),
        forall|k: int|
            0 <= k < group.spec_cells().len() ==> group.spec_cells()[k] < old(
                match_board,
            )@.len(),
        group.spec_color().spec_can_start_match(),
        colors.len() == old(match_board)@.len(),
        groups_on_board(old(matches)@, colors),
        color_on_board(group.spec_color(), colors),
        colors_well_behaved(colors) ==> cells_match_wf(old(matches)@, colors)
            && group_cells_match(group, colors) && disjoint_matching(old(matches)@),
    ensures
        final (match_board)@.len() == old(match_board)@.len(),
        final (matches)@.len() >= old(matches)@.len(),
        board_wf(
            final (match_board)@,
            final (matches)@.len() as int,
            old(match_board)@.len() as int,
        ),
        matches_wf(final (matches)@, old(match_board)@.len() as int, settings.spec_min_keep()),
        board_complete(final (matches)@, final (match_board)@),
        exists_alive(old(matches)@) ==> exists_alive(final (matches)@),
        group.spec_cells().len() >= settings.line_size && group.spec_cells().len()
            >= settings.spec_min_group() ==> exists_alive(final (matches)@),
        groups_on_board(final (matches)@, colors),
        colors_well_behaved(colors) ==> cells_match_wf(final (matches)@, colors)
            && disjoint_matching(final (matches)@),
        // A run shorter than `line_size` is discarded outright: no change.
        group.spec_cells().len() < settings.line_size ==> final (matches)@ == old(matches)@
            && final (match_board)@ == old(match_board)@,
        // A run below the group minimum with nothing matching on its cells is
        // discarded before the neighbour phase: no change.
        group.spec_cells().len() >= settings.line_size && group.spec_cells().len()
            < settings.spec_min_group() && no_matching_entries(
            old(matches)@,
            old(match_board)@,
            group.spec_cells(),
            group.spec_color(),
        ) ==> final (matches)@ == old(matches)@ && final (match_board)@ == old(match_board)@,
        // A qualifying run touching nothing matching is registered as a new
        // group holding exactly the run's cells, indexed at each of them.
        (group.spec_cells().len() >= settings.line_size && group.spec_cells().len()
            >= settings.spec_min_group() && no_matching_entries(
            old(matches)@,
            old(match_board)@,
            group.spec_cells(),
            group.spec_color(),
        ) && (settings.merge_neighbours ==> no_matching_neighbour_entries(
            old(matches)@,
            old(match_board)@,
            neighbours@,
            group.spec_cells(),
            group.spec_color(),
        ))) ==> ({
            &&& final (matches)@.len() == old(matches)@.len() + 1
            &&& forall|k: int| 0 <= k < old(matches)@.len() ==> final (matches)@[k] == old(
                matches,
            )@[k]
            &&& final (matches)@[old(matches)@.len() as int] is Some
            &&& (final (matches)@[old(matches)@.len() as int]->0).spec_cells()
                == group.spec_cells()
            &&& (final (matches)@[old(matches)@.len() as int]->0).spec_color()
                == group.spec_color()
            &&& forall|c: int|
                0 <= c < old(match_board)@.len() ==> final (match_board)@[c]@ == (if
                group.spec_cells().contains(c as usize) {
                    old(match_board)@[c]@.push(old(matches)@.len() as usize)
                } else {
                    old(match_board)@[c]@
                })
        }),
        // Cells already claimed by an alive group stay claimed, and new
        // claims come only from the run.
        forall|c: usize|
            cell_in_alive(old(matches)@, c) ==> cell_in_alive(final (matches)@, c),
        forall|c: usize|
            cell_in_alive(final (matches)@, c) ==> cell_in_alive(old(matches)@, c)
                || group.spec_cells().contains(c),
        // A qualifying run lands whole inside a single alive group.
        group.spec_cells().len() >= settings.line_size && group.spec_cells().len()
            >= settings.spec_min_group() ==> exists|k: int|
            0 <= k < final (matches)@.len() && final (matches)@[k] is Some && forall|j: int|
                0 <= j < group.spec_cells().len() ==> (#[trigger] final (
                matches)@[k]->0).spec_cells().contains(group.spec_cells()[j]),
        // No surviving group loses a cell, and any new group holds the run.
        forall|k: int, c: usize|
            0 <= k < old(matches)@.len() && old(matches)@[k] is Some && final (
            matches)@[k] is Some && #[trigger] (old(matches)@[k]->0).spec_cells().contains(c)
                ==> (final (matches)@[k]->0).spec_cells().contains(c),
        forall|k: int|
            0 <= k < final (matches)@.len() && final (matches)@[k] is Some
                ==> ((0 <= k < old(matches)@.len() && old(matches)@[k] is Some) || (forall|
                j: int,
            |
                0 <= j < group.spec_cells().len() ==> (#[trigger] final (
                matches)@[k]->0).spec_cells().contains(group.spec_cells()[j]))),
        // Every old alive group survives whole inside some alive group: its
        // slot is untouched, or a fold moved all of its cells into the merge
        // target.
        groups_absorbed(old(matches)@, final (matches)@),
        // With neighbour merging on over a symmetric topology and
        // well-behaved colors, no two distinct alive groups of matching
        // colors touch each other, before or after the close.
        (settings.merge_neighbours && neighbours_sym(neighbours@) && colors_well_behaved(colors)
            && no_adjacent_matching(old(matches)@, neighbours@)) ==> no_adjacent_matching(
            final (matches)@,
            neighbours@,
        ),
{
    let ghost ncells = match_board@.len() as int;
    let ghost min = settings.spec_min_keep();
    let ghost wb = colors_well_behaved(colors);
    let ghost rcolor = group.spec_color();
    let ghost run = group.spec_cells();
    let ghost ms0 = matches@;
    let msz = matches.len();
    let bsz = match_board.len();
    proof {
        assert(old(matches)@.len() <= usize::MAX) by {
            assert(msz as int == old(matches)@.len());
        }
        assert(ncells <= usize::MAX) by {
            assert(bsz as int == ncells);
        }
    }
    let ghost nme = no_matching_entries(old(matches)@, old(match_board)@, run, rcolor);
    let ghost nmne = no_matching_neighbour_entries(
        old(matches)@,
        old(match_board)@,
        neighbours@,
        run,
        rcolor,
    );
    if group.cells().len() < settings.line_size {
        proof {
            lemma_groups_absorbed_refl(matches@);
        }
        return;
    }
    let mut merge_group: Option<usize> = None;
    let mut groups_to_merge: Vec<usize> = Vec::new();

    let mut i: usize = 0;
    while i < group.cells().len()
        invariant
            nme ==> merge_group is None,
            i <= group.spec_cells().len(),
            match_board@.len() == ncells,
            match_board@ == old(match_board)@,
            matches@.len() == old(matches)@.len(),
            matches_wf(matches@, ncells, min),
            board_wf(match_board@, matches@.len() as int, ncells),
            forall|k: int|
                0 <= k < old(matches)@.len() ==> (matches@[k] is Some <==> old(
                    matches,
                )@[k] is Some),
            merge_group is Some ==> merge_group->0 < matches@.len() && matches@[merge_group->0 as int] is Some,
            merge_group is None ==> groups_to_merge@.len() == 0,
            merge_group is None ==> matches@ == old(matches)@,
            merge_group is Some ==> {
                let mk = merge_group->0 as int;
                &&& forall|k: int|
                    0 <= k < old(matches)@.len() && k != mk ==> matches@[k] == old(matches)@[k]
                &&& (matches@[mk]->0).spec_color() == (old(matches)@[mk]->0).spec_color()
                &&& (matches@[mk]->0).spec_color().spec_matches(rcolor)
                &&& (matches@[mk]->0).spec_cells() == (old(matches)@[mk]->0).spec_cells() + run
            },
            forall|s: int|
                0 <= s < groups_to_merge@.len() ==> #[trigger] groups_to_merge@[s]
                    < matches@.len() && matches@[groups_to_merge@[s] as int] is Some,
            groups_to_merge@.no_duplicates(),
            merge_group is Some ==> !groups_to_merge@.contains(merge_group->0),
            forall|s: int|
                0 <= s < groups_to_merge@.len() ==> (matches@[#[trigger] groups_to_merge@[s] as int]->0).spec_color().spec_matches(
                    rcolor,
                ),
            forall|j: int|
                0 <= j < i ==> #[trigger] cell_claim(
                    matches@,
                    match_board@,
                    run[j] as int,
                    rcolor,
                    merge_group,
                    groups_to_merge@,
                ),
            complete_except(matches@, match_board@, merge_group, run),
            groups_on_board(matches@, colors),
            wb ==> cells_match_wf(matches@, colors),
        decreases group.spec_cells().len() - i,
    {
        let cell = group.cells()[i];
        let ghost mg_pre = merge_group;
        let ghost tm_pre = groups_to_merge@;
        let ghost ms_pre = matches@;
        check_merge_groups_at_cell(
            matches,
            &*match_board,
            &group,
            cell,
            &mut merge_group,
            &mut groups_to_merge,
            Ghost(min),
            Ghost(colors),
        );
        proof {
            if mg_pre is None && merge_group is Some {
                let mk = merge_group->0 as int;
                assert(ms_pre == old(matches)@);
                assert((matches@[mk]->0).spec_cells() == (ms_pre[mk]->0).spec_cells() + run);
            }
            if nme {
                assert(mg_pre is None && ms_pre == old(matches)@);
                assert forall|t2: int|
                    0 <= t2 < match_board@[cell as int]@.len() implies ({
                    let k = #[trigger] match_board@[cell as int]@[t2] as int;
                    !(ms_pre[k] is Some && (ms_pre[k]->0).spec_color().spec_matches(rcolor))
                }) by {
                    assert(run[i as int] == cell);
                    assert(match_board@ == old(match_board)@);
                    assert(0 <= t2 < old(match_board)@[run[i as int] as int]@.len());
                    assert(old(match_board)@[run[i as int] as int]@[t2] == match_board@[cell as int]@[t2]);
                    let k = old(match_board)@[run[i as int] as int]@[t2] as int;
                    assert(!(0 <= k < old(matches)@.len() && old(matches)@[k] is Some && (old(
                    matches,
                    )@[k]->0).spec_color().spec_matches(rcolor)));
                    assert(board_wf(match_board@, ms_pre.len() as int, ncells));
                }
                assert(merge_group is None);
            }
            assert forall|j: int| 0 <= j < i + 1 implies #[trigger] cell_claim(
                matches@,
                match_board@,
                run[j] as int,
                rcolor,
                merge_group,
                groups_to_merge@,
            ) by {
                if j < i {
                    assert(cell_claim(
                        ms_pre,
                        match_board@,
                        run[j] as int,
                        rcolor,
                        mg_pre,
                        tm_pre,
                    ));
                    assert forall|t: int|
                        0 <= t < match_board@[run[j] as int]@.len() implies {
                        let k = #[trigger] match_board@[run[j] as int]@[t] as int;
                        0 <= k < matches@.len() && matches@[k] is Some && (
                        matches@[k]->0).spec_color().spec_matches(rcolor) ==> merge_group is Some
                            && (k == merge_group->0 as int || groups_to_merge@.contains(
                            k as usize,
                        ))
                    } by {
                        let k = match_board@[run[j] as int]@[t] as int;
                        assert(ms_pre[k] is Some <==> matches@[k] is Some);
                        if matches@[k] is Some {
                            assert((matches@[k]->0).spec_color() == (
                            ms_pre[k]->0).spec_color());
                        }
                    }
                }
            }
            assert(complete_except(matches@, match_board@, merge_group, run));
        }
        i = i + 1;
    }

    let ghost mg_checkpoint = merge_group;
    if merge_group.is_none() {
        let mgs = match settings.min_group_size {
            Some(m) => m,
            None => 0,
        };
        if group.cells().len() < mgs {
            proof {
                lemma_groups_absorbed_refl(matches@);
            }
            return;
        }
    }
    assert(mg_checkpoint is None ==> group.spec_cells().len() >= settings.spec_min_group());

    if settings.merge_neighbours {
        let mut i2: usize = 0;
        while i2 < group.cells().len()
            invariant
                nme && nmne ==> merge_group is None,
                i2 <= group.spec_cells().len(),
                match_board@.len() == ncells,
                match_board@ == old(match_board)@,
                matches@.len() == old(matches)@.len(),
                matches_wf(matches@, ncells, min),
                board_wf(match_board@, matches@.len() as int, ncells),
                forall|k: int|
                    0 <= k < old(matches)@.len() ==> (matches@[k] is Some <==> old(
                        matches,
                    )@[k] is Some),
                merge_group is Some ==> merge_group->0 < matches@.len() && matches@[merge_group->0 as int] is Some,
                merge_group is None ==> groups_to_merge@.len() == 0,
                merge_group is None ==> mg_checkpoint is None,
                merge_group is None ==> matches@ == old(matches)@,
                merge_group is Some ==> {
                    let mk = merge_group->0 as int;
                    &&& forall|k: int|
                        0 <= k < old(matches)@.len() && k != mk ==> matches@[k] == old(
                            matches,
                        )@[k]
                    &&& (matches@[mk]->0).spec_color() == (old(matches)@[mk]->0).spec_color()
                    &&& (matches@[mk]->0).spec_color().spec_matches(rcolor)
                    &&& (matches@[mk]->0).spec_cells() == (old(matches)@[mk]->0).spec_cells()
                        + run
                },
                forall|s: int|
                    0 <= s < groups_to_merge@.len() ==> #[trigger] groups_to_merge@[s]
                        < matches@.len() && matches@[groups_to_merge@[s] as int] is Some,
                groups_to_merge@.no_duplicates(),
                merge_group is Some ==> !groups_to_merge@.contains(merge_group->0),
                forall|s: int|
                    0 <= s < groups_to_merge@.len() ==> (matches@[#[trigger] groups_to_merge@[s] as int]->0).spec_color().spec_matches(
                        rcolor,
                    ),
                forall|j: int|
                    0 <= j < run.len() ==> #[trigger] cell_claim(
                        matches@,
                        match_board@,
                        run[j] as int,
                        rcolor,
                        merge_group,
                        groups_to_merge@,
                    ),
                forall|j: int, u: int|
                    0 <= j < i2 && 0 <= u < neighbours@[run[j] as int]@.len()
                        ==> #[trigger] cell_claim(
                        matches@,
                        match_board@,
                        neighbours@[run[j] as int]@[u] as int,
                        rcolor,
                        merge_group,
                        groups_to_merge@,
                    ),
                complete_except(matches@, match_board@, merge_group, run),
                groups_on_board(matches@, colors),
                wb ==> cells_match_wf(matches@, colors),
            decreases group.spec_cells().len() - i2,
        {
            let cell = group.cells()[i2];
            let mut t: usize = 0;
            while t < neighbours[cell].len()
                invariant
                    nme && nmne ==> merge_group is None,
                    t <= neighbours@[cell as int]@.len(),
                    cell < ncells,
                    match_board@.len() == ncells,
                    match_board@ == old(match_board)@,
                    matches@.len() == old(matches)@.len(),
                    matches_wf(matches@, ncells, min),
                    board_wf(match_board@, matches@.len() as int, ncells),
                    forall|k: int|
                        0 <= k < old(matches)@.len() ==> (matches@[k] is Some <==> old(
                            matches,
                        )@[k] is Some),
                    merge_group is Some ==> merge_group->0 < matches@.len()
                        && matches@[merge_group->0 as int] is Some,
                    merge_group is None ==> groups_to_merge@.len() == 0,
                    merge_group is None ==> mg_checkpoint is None,
                    merge_group is None ==> matches@ == old(matches)@,
                    merge_group is Some ==> {
                        let mk = merge_group->0 as int;
                        &&& forall|k: int|
                            0 <= k < old(matches)@.len() && k != mk ==> matches@[k] == old(
                                matches,
                            )@[k]
                        &&& (matches@[mk]->0).spec_color() == (
                        old(matches)@[mk]->0).spec_color()
                        &&& (matches@[mk]->0).spec_color().spec_matches(rcolor)
                        &&& (matches@[mk]->0).spec_cells() == (
                        old(matches)@[mk]->0).spec_cells() + run
                    },
                    forall|s: int|
                        0 <= s < groups_to_merge@.len() ==> #[trigger] groups_to_merge@[s]
                            < matches@.len() && matches@[groups_to_merge@[s] as int] is Some,
                    groups_to_merge@.no_duplicates(),
                    merge_group is Some ==> !groups_to_merge@.contains(merge_group->0),
                    forall|s: int|
                        0 <= s < groups_to_merge@.len() ==> (matches@[#[trigger] groups_to_merge@[s] as int]->0).spec_color().spec_matches(
                            rcolor,
                        ),
                    forall|j: int|
                        0 <= j < run.len() ==> #[trigger] cell_claim(
                            matches@,
                            match_board@,
                            run[j] as int,
                            rcolor,
                            merge_group,
                            groups_to_merge@,
                        ),
                    cell == run[i2 as int],
                    forall|j: int, u: int|
                        0 <= j < i2 && 0 <= u < neighbours@[run[j] as int]@.len()
                            ==> #[trigger] cell_claim(
                            matches@,
                            match_board@,
                            neighbours@[run[j] as int]@[u] as int,
                            rcolor,
                            merge_group,
                            groups_to_merge@,
                        ),
                    forall|u: int|
                        0 <= u < t ==> #[trigger] cell_claim(
                            matches@,
                            match_board@,
                            neighbours@[cell as int]@[u] as int,
                            rcolor,
                            merge_group,
                            groups_to_merge@,
                        ),
                    complete_except(matches@, match_board@, merge_group, run),
                    groups_on_board(matches@, colors),
                    wb ==> cells_match_wf(matches@, colors),
                decreases neighbours@[cell as int]@.len() - t,
            {
                let nb = neighbours[cell][t];
                let ghost mg_pre = merge_group;
                let ghost tm_pre = groups_to_merge@;
                let ghost ms_pre = matches@;
                check_merge_groups_at_cell(
                    matches,
                    &*match_board,
                    &group,
                    nb,
                    &mut merge_group,
                    &mut groups_to_merge,
                    Ghost(min),
                    Ghost(colors),
                );
                proof {
                    if mg_pre is None && merge_group is Some {
                        let mk = merge_group->0 as int;
                        assert(ms_pre == old(matches)@);
                        assert((matches@[mk]->0).spec_cells() == (ms_pre[mk]->0).spec_cells()
                            + run);
                    }
                    if nme && nmne {
                        assert(mg_pre is None && ms_pre == old(matches)@);
                        assert forall|t2: int|
                            0 <= t2 < match_board@[nb as int]@.len() implies ({
                            let k = #[trigger] match_board@[nb as int]@[t2] as int;
                            !(ms_pre[k] is Some && (ms_pre[k]->0).spec_color().spec_matches(
                                rcolor,
                            ))
                        }) by {
                            assert(run[i2 as int] == cell);
                            assert(neighbours@[cell as int]@[t as int] == nb);
                            assert(match_board@ == old(match_board)@);
                            assert(0 <= t2 < old(match_board)@[neighbours@[cell as int]@[t as int] as int]@.len());
                            assert(old(match_board)@[neighbours@[cell as int]@[t as int] as int]@[t2]
                                == match_board@[nb as int]@[t2]);
                            let k = old(match_board)@[neighbours@[cell as int]@[t as int] as int]@[t2] as int;
                            assert(!(0 <= k < old(matches)@.len() && old(matches)@[k] is Some && (
                            old(matches)@[k]->0).spec_color().spec_matches(rcolor)));
                            assert(board_wf(match_board@, ms_pre.len() as int, ncells));
                        }
                        assert(merge_group is None);
                    }
                    assert forall|j: int| 0 <= j < run.len() implies #[trigger] cell_claim(
                        matches@,
                        match_board@,
                        run[j] as int,
                        rcolor,
                        merge_group,
                        groups_to_merge@,
                    ) by {
                        assert(cell_claim(
                            ms_pre,
                            match_board@,
                            run[j] as int,
                            rcolor,
                            mg_pre,
                            tm_pre,
                        ));
                        assert forall|t2: int|
                            0 <= t2 < match_board@[run[j] as int]@.len() implies {
                            let k = #[trigger] match_board@[run[j] as int]@[t2] as int;
                            0 <= k < matches@.len() && matches@[k] is Some && (
                            matches@[k]->0).spec_color().spec_matches(rcolor) ==> merge_group is Some
                                && (k == merge_group->0 as int || groups_to_merge@.contains(
                                k as usize,
                            ))
                        } by {
                            let k = match_board@[run[j] as int]@[t2] as int;
                            assert(ms_pre[k] is Some <==> matches@[k] is Some);
                            if matches@[k] is Some {
                                assert((matches@[k]->0).spec_color() == (
                                ms_pre[k]->0).spec_color());
                            }
                        }
                    }
                    assert forall|j: int, u: int|
                        0 <= j < i2 && 0 <= u < neighbours@[run[j] as int]@.len() implies #[trigger] cell_claim(
                        matches@,
                        match_board@,
                        neighbours@[run[j] as int]@[u] as int,
                        rcolor,
                        merge_group,
                        groups_to_merge@,
                    ) by {
                        let d = neighbours@[run[j] as int]@[u] as int;
                        assert(cell_claim(ms_pre, match_board@, d, rcolor, mg_pre, tm_pre));
                        assert forall|t2: int|
                            0 <= t2 < match_board@[d]@.len() implies {
                            let k = #[trigger] match_board@[d]@[t2] as int;
                            0 <= k < matches@.len() && matches@[k] is Some && (
                            matches@[k]->0).spec_color().spec_matches(rcolor) ==> merge_group is Some
                                && (k == merge_group->0 as int || groups_to_merge@.contains(
                                k as usize,
                            ))
                        } by {
                            let k = match_board@[d]@[t2] as int;
                            assert(ms_pre[k] is Some <==> matches@[k] is Some);
                            if matches@[k] is Some {
                                assert((matches@[k]->0).spec_color() == (
                                ms_pre[k]->0).spec_color());
                            }
                        }
                    }
                    assert forall|u: int|
                        0 <= u < t + 1 implies #[trigger] cell_claim(
                        matches@,
                        match_board@,
                        neighbours@[cell as int]@[u] as int,
                        rcolor,
                        merge_group,
                        groups_to_merge@,
                    ) by {
                        let d = neighbours@[cell as int]@[u] as int;
                        if u < t {
                            assert(cell_claim(ms_pre, match_board@, d, rcolor, mg_pre, tm_pre));
                            assert forall|t2: int|
                                0 <= t2 < match_board@[d]@.len() implies {
                                let k = #[trigger] match_board@[d]@[t2] as int;
                                0 <= k < matches@.len() && matches@[k] is Some && (
                                matches@[k]->0).spec_color().spec_matches(rcolor)
                                    ==> merge_group is Some && (k == merge_group->0 as int
                                    || groups_to_merge@.contains(k as usize))
                            } by {
                                let k = match_board@[d]@[t2] as int;
                                assert(ms_pre[k] is Some <==> matches@[k] is Some);
                                if matches@[k] is Some {
                                    assert((matches@[k]->0).spec_color() == (
                                    ms_pre[k]->0).spec_color());
                                }
                            }
                        } else {
                            assert(d == nb as int);
                            assert forall|t2: int|
                                0 <= t2 < match_board@[d]@.len() implies {
                                let k = #[trigger] match_board@[d]@[t2] as int;
                                0 <= k < matches@.len() && matches@[k] is Some && (
                                matches@[k]->0).spec_color().spec_matches(rcolor)
                                    ==> merge_group is Some && (k == merge_group->0 as int
                                    || groups_to_merge@.contains(k as usize))
                            } by {}
                        }
                    }
                    assert(complete_except(matches@, match_board@, merge_group, run));
                }
                t = t + 1;
            }
            i2 = i2 + 1;
        }
    }

    proof {
        assert(nme && (settings.merge_neighbours ==> nmne) ==> merge_group is None);
    }
    if let Some(merged) = merge_group {
        let ghost ms_scan = matches@;
        proof {
            assert((ms_scan[merged as int]->0).spec_color().spec_matches(rcolor));
            assert((ms_scan[merged as int]->0).spec_color() == (
            old(matches)@[merged as int]->0).spec_color());
            assert((ms_scan[merged as int]->0).spec_cells() == (
            old(matches)@[merged as int]->0).spec_cells() + run);
            assert(ms_scan.len() == old(matches)@.len());
            assert(forall|k: int|
                0 <= k < old(matches)@.len() && k != merged as int ==> ms_scan[k] == old(
                    matches,
                )@[k]);
            assert(forall|s: int|
                0 <= s < groups_to_merge@.len() ==> (ms_scan[#[trigger] groups_to_merge@[s] as int]->0).spec_color().spec_matches(
                    rcolor,
                ));
            if settings.merge_neighbours {
                assert(forall|j: int, u: int|
                    0 <= j < run.len() && 0 <= u < neighbours@[run[j] as int]@.len()
                        ==> #[trigger] cell_claim(
                        ms_scan,
                        old(match_board)@,
                        neighbours@[run[j] as int]@[u] as int,
                        rcolor,
                        Some(merged),
                        groups_to_merge@,
                    ));
            }
        }
        let mut i3: usize = 0;
        while i3 < group.cells().len()
            invariant
                i3 <= group.spec_cells().len(),
                match_board@.len() == ncells,
                matches@.len() == old(matches)@.len(),
                merged < matches@.len(),
                matches@[merged as int] is Some,
                board_wf(match_board@, matches@.len() as int, ncells),
                forall|s: int|
                    0 <= s < groups_to_merge@.len() ==> #[trigger] groups_to_merge@[s]
                        < matches@.len() && matches@[groups_to_merge@[s] as int] is Some,
                forall|j: int|
                    0 <= j < run.len() ==> #[trigger] cell_claim(
                        matches@,
                        match_board@,
                        run[j] as int,
                        rcolor,
                        Some(merged),
                        groups_to_merge@,
                    ),
                forall|j: int|
                    0 <= j < i3 ==> match_board@[#[trigger] run[j] as int]@.contains(merged),
                complete_except(matches@, match_board@, Some(merged), run),
                forall|c: int, x: usize|
                    0 <= c < ncells && old(match_board)@[c]@.contains(x)
                        ==> #[trigger] match_board@[c]@.contains(x),
            decreases group.spec_cells().len() - i3,
        {
            let x = group.cells()[i3];
            let ghost mb_pre = match_board@;
            if !vec_contains(&match_board[x], merged) {
                row_push(match_board, x, merged);
                proof {
                    lemma_push_contains(mb_pre[x as int]@, merged, merged);
                }
            }
            proof {
                assert(match_board@[x as int]@.contains(merged));
                assert forall|c: int, v: usize|
                    0 <= c < ncells && mb_pre[c]@.contains(v) implies #[trigger] match_board@[c]@.contains(
                    v,
                ) by {
                    if c == x as int {
                        let t2 = choose|t2: int|
                            0 <= t2 < mb_pre[c]@.len() && mb_pre[c]@[t2] == v;
                        assert(match_board@[c]@[t2] == v);
                    }
                }
                assert(complete_except(matches@, match_board@, Some(merged), run)) by {
                    assert forall|kq: int, ciq: int|
                        #![trigger (matches@[kq]->0).spec_cells()[ciq]]
                        0 <= kq < matches@.len() && matches@[kq] is Some && 0 <= ciq < (
                        matches@[kq]->0).spec_cells().len() implies (match_board@[(
                    matches@[kq]->0).spec_cells()[ciq] as int]@.contains(kq as usize) || (
                    Some(merged) is Some && kq == merged as int && run.contains(
                        (matches@[kq]->0).spec_cells()[ciq],
                    ))) by {
                        assert(group_wf(matches@[kq]->0, ncells, min));
                        if mb_pre[(matches@[kq]->0).spec_cells()[ciq] as int]@.contains(
                            kq as usize,
                        ) {
                        }
                    }
                }
                assert forall|j: int| 0 <= j < run.len() implies #[trigger] cell_claim(
                    matches@,
                    match_board@,
                    run[j] as int,
                    rcolor,
                    Some(merged),
                    groups_to_merge@,
                ) by {
                    assert(cell_claim(
                        matches@,
                        mb_pre,
                        run[j] as int,
                        rcolor,
                        Some(merged),
                        groups_to_merge@,
                    ));
                    assert forall|t2: int|
                        0 <= t2 < match_board@[run[j] as int]@.len() implies {
                        let k = #[trigger] match_board@[run[j] as int]@[t2] as int;
                        0 <= k < matches@.len() && matches@[k] is Some && (
                        matches@[k]->0).spec_color().spec_matches(rcolor) ==> Some(
                            merged,
                        ) is Some && (k == merged as int || groups_to_merge@.contains(
                            k as usize,
                        ))
                    } by {
                        if run[j] as int == x as int && t2 >= mb_pre[x as int]@.len() {
                            assert(match_board@[run[j] as int]@[t2] == merged);
                        } else {
                            assert(match_board@[run[j] as int]@[t2] == mb_pre[run[j] as int]@[t2]);
                        }
                    }
                }
            }
            i3 = i3 + 1;
        }
        proof {
            assert(board_complete(matches@, match_board@)) by {
                assert forall|k: int, ci: int|
                    0 <= k < matches@.len() && matches@[k] is Some && 0 <= ci < (
                    matches@[k]->0).spec_cells().len() implies match_board@[(
                #[trigger] (matches@[k]->0).spec_cells()[ci]) as int]@.contains(k as usize) by {
                    if merge_group is Some && k == merged as int && run.contains(
                        (matches@[k]->0).spec_cells()[ci],
                    ) && !old(match_board)@[(matches@[k]->0).spec_cells()[ci] as int]@.contains(
                        k as usize,
                    ) {
                        let j = choose|j: int|
                            0 <= j < run.len() && run[j] == (matches@[k]->0).spec_cells()[ci];
                        assert(match_board@[run[j] as int]@.contains(merged));
                    }
                }
            }
        }
        let ghost mbf = match_board@;
        proof {
            assert(board_complete(ms0, mbf)) by {
                assert forall|k: int, ci: int|
                    #![trigger (ms0[k]->0).spec_cells()[ci]]
                    0 <= k < ms0.len() && ms0[k] is Some && 0 <= ci < (
                    ms0[k]->0).spec_cells().len() implies mbf[(
                ms0[k]->0).spec_cells()[ci] as int]@.contains(k as usize) by {
                    assert(group_wf(ms0[k]->0, ncells, min));
                    assert(old(match_board)@[(ms0[k]->0).spec_cells()[ci] as int]@.contains(
                        k as usize,
                    ));
                }
            }
        }
        let ghost msf = matches@;
        fold_groups(
            settings,
            group,
            merged,
            &groups_to_merge,
            matches,
            match_board,
            Ghost(colors),
            Ghost(ms0),
            Ghost(mbf),
        );
        proof {
            lemma_fold_union::<C>(
                old(matches)@,
                msf,
                matches@,
                groups_to_merge@,
                merged,
                run,
            );
            assert forall|k: int, c: usize|
                0 <= k < old(matches)@.len() && old(matches)@[k] is Some
                    && matches@[k] is Some && #[trigger] (old(
                matches)@[k]->0).spec_cells().contains(c) implies (
            matches@[k]->0).spec_cells().contains(c) by {
                if k == merged as int {
                    let w = choose|w: int|
                        0 <= w < (old(matches)@[merged as int]->0).spec_cells().len() && (old(
                        matches,
                        )@[merged as int]->0).spec_cells()[w] == c;
                    assert((msf[merged as int]->0).spec_cells()[w] == c);
                    assert((msf[merged as int]->0).spec_cells().contains(c));
                } else {
                    if groups_to_merge@.contains(k as usize) {
                        let si = choose|si: int|
                            0 <= si < groups_to_merge@.len() && #[trigger] groups_to_merge@[si]
                                == k as usize;
                        assert(matches@[groups_to_merge@[si] as int] is None);
                        assert(false);
                    }
                    assert(matches@[k] == msf[k] && msf[k] == old(matches)@[k]);
                }
            }
            assert(groups_absorbed(old(matches)@, matches@)) by {
                assert forall|k: int|
                    0 <= k < old(matches)@.len() && old(matches)@[k] is Some implies #[trigger] group_absorbed(
                    old(matches)@[k]->0,
                    matches@,
                ) by {
                    if k == merged as int {
                        assert forall|c: usize|
                            #[trigger] (old(matches)@[merged as int]->0).spec_cells().contains(
                                c,
                            ) implies (matches@[merged as int]->0).spec_cells().contains(c) by {
                            let w = choose|w: int|
                                0 <= w < (old(matches)@[merged as int]->0).spec_cells().len()
                                    && (old(matches)@[merged as int]->0).spec_cells()[w] == c;
                            assert((msf[merged as int]->0).spec_cells()[w] == c);
                            assert((msf[merged as int]->0).spec_cells().contains(c));
                        }
                        assert(0 <= (merged as int) < matches@.len()
                            && matches@[merged as int] is Some && forall|c: usize|
                            #[trigger] (old(matches)@[k]->0).spec_cells().contains(c) ==> (
                            matches@[merged as int]->0).spec_cells().contains(c));
                    } else if groups_to_merge@.contains(k as usize) {
                        let si = choose|si: int|
                            0 <= si < groups_to_merge@.len() && #[trigger] groups_to_merge@[si]
                                == k as usize;
                        assert(msf[k] == old(matches)@[k]);
                        assert forall|c: usize|
                            #[trigger] (old(matches)@[k]->0).spec_cells().contains(c) implies (
                            matches@[merged as int]->0).spec_cells().contains(c) by {
                            assert((msf[groups_to_merge@[si] as int]->0).spec_cells().contains(
                                c,
                            ));
                        }
                        assert(0 <= (merged as int) < matches@.len()
                            && matches@[merged as int] is Some && forall|c: usize|
                            #[trigger] (old(matches)@[k]->0).spec_cells().contains(c) ==> (
                            matches@[merged as int]->0).spec_cells().contains(c));
                    } else {
                        assert(matches@[k] == msf[k] && msf[k] == old(matches)@[k]);
                        assert(0 <= k < matches@.len() && matches@[k] is Some && forall|c: usize|
                            #[trigger] (old(matches)@[k]->0).spec_cells().contains(c) ==> (
                            matches@[k]->0).spec_cells().contains(c));
                    }
                }
            }
            if settings.merge_neighbours && neighbours_sym(neighbours@) && wb
                && no_adjacent_matching(old(matches)@, neighbours@) {
                let msn = matches@;
                let mergedc = (msn[merged as int]->0).spec_color();
                assert(neighbours@.len() == ncells);
                assert(mergedc == (ms_scan[merged as int]->0).spec_color());
                assert(mergedc.spec_matches(rcolor));
                assert(color_on_board(rcolor, colors));
                assert forall|k1: int, k2: int|
                    #![trigger msn[k1], msn[k2]]
                    0 <= k1 < msn.len() && 0 <= k2 < msn.len() && k1 != k2 && msn[k1] is Some
                        && msn[k2] is Some && (msn[k1]->0).spec_color().spec_matches(
                        (msn[k2]->0).spec_color(),
                    ) implies !groups_adjacent(msn[k1]->0, msn[k2]->0, neighbours@) by {
                    if groups_adjacent(msn[k1]->0, msn[k2]->0, neighbours@) {
                        let (a, u) = choose|a: int, u: int|
                            0 <= a < (msn[k1]->0).spec_cells().len() && 0 <= u < neighbours@[(
                            msn[k1]->0).spec_cells()[a] as int]@.len() && (
                            msn[k2]->0).spec_cells().contains(
                                #[trigger] neighbours@[(msn[k1]->0).spec_cells()[a] as int]@[u],
                            );
                        let c1 = (msn[k1]->0).spec_cells()[a];
                        let d = neighbours@[c1 as int]@[u];
                        assert((msn[k2]->0).spec_cells().contains(d));
                        if k1 != merged as int {
                            if groups_to_merge@.contains(k1 as usize) {
                                let si = choose|si: int|
                                    0 <= si < groups_to_merge@.len()
                                        && #[trigger] groups_to_merge@[si] == k1 as usize;
                                assert(matches@[groups_to_merge@[si] as int] is None);
                            }
                            assert(msn[k1] == msf[k1] && msf[k1] == old(matches)@[k1]);
                        }
                        if k2 != merged as int {
                            if groups_to_merge@.contains(k2 as usize) {
                                let si = choose|si: int|
                                    0 <= si < groups_to_merge@.len()
                                        && #[trigger] groups_to_merge@[si] == k2 as usize;
                                assert(matches@[groups_to_merge@[si] as int] is None);
                            }
                            assert(msn[k2] == msf[k2] && msf[k2] == old(matches)@[k2]);
                        }
                        assert(group_wf(msn[k1]->0, ncells, min));
                        assert(c1 < ncells);
                        let base = (old(matches)@[merged as int]->0).spec_cells().len() as int;
                        if k1 != merged as int && k2 != merged as int {
                            assert(old(matches)@[k1] is Some && old(matches)@[k2] is Some);
                            assert(!groups_adjacent(
                                old(matches)@[k1]->0,
                                old(matches)@[k2]->0,
                                neighbours@,
                            ));
                            assert(false);
                        } else if k2 == merged as int {
                            let g1c = (msn[k1]->0).spec_color();
                            assert(color_on_board(g1c, colors));
                            assert(color_on_board(mergedc, colors));
                            assert(g1c.spec_matches(mergedc));
                            assert(g1c.spec_matches(rcolor));
                            if (msf[merged as int]->0).spec_cells().contains(d) {
                                let w = choose|w: int|
                                    0 <= w < (msf[merged as int]->0).spec_cells().len() && (
                                    msf[merged as int]->0).spec_cells()[w] == d;
                                if w < base {
                                    assert((old(matches)@[merged as int]->0).spec_cells()[w]
                                        == d);
                                    assert(old(matches)@[k1] is Some && old(
                                        matches,
                                    )@[merged as int] is Some);
                                    assert(groups_adjacent(
                                        old(matches)@[k1]->0,
                                        old(matches)@[merged as int]->0,
                                        neighbours@,
                                    )) by {
                                        assert((old(matches)@[k1]->0).spec_cells()[a] == c1);
                                        assert((old(
                                            matches,
                                        )@[merged as int]->0).spec_cells().contains(d));
                                        assert(neighbours@[(old(
                                            matches,
                                        )@[k1]->0).spec_cells()[a] as int]@[u] == d);
                                    }
                                    assert(false);
                                } else {
                                    let jr = w - base;
                                    assert(run[jr] == d);
                                    assert(d < ncells);
                                    assert(neighbours@[d as int]@.contains(c1));
                                    let u2 = choose|u2: int|
                                        0 <= u2 < neighbours@[d as int]@.len()
                                            && neighbours@[d as int]@[u2] == c1;
                                    assert(cell_claim(
                                        ms_scan,
                                        old(match_board)@,
                                        neighbours@[run[jr] as int]@[u2] as int,
                                        rcolor,
                                        Some(merged),
                                        groups_to_merge@,
                                    ));
                                    assert(neighbours@[run[jr] as int]@[u2] == c1);
                                    assert((old(matches)@[k1]->0).spec_cells()[a] == c1);
                                    assert(old(match_board)@[c1 as int]@.contains(k1 as usize));
                                    let t2 = choose|t2: int|
                                        0 <= t2 < old(match_board)@[c1 as int]@.len() && old(
                                            match_board,
                                        )@[c1 as int]@[t2] == k1 as usize;
                                    assert(old(match_board)@[c1 as int]@[t2] == k1 as usize);
                                    assert(ms_scan[k1] is Some && (ms_scan[k1]->0).spec_color()
                                        == g1c);
                                    assert(false);
                                }
                            } else {
                                let si = choose|si: int|
                                    0 <= si < groups_to_merge@.len() && (msf[#[trigger] groups_to_merge@[si] as int]->0).spec_cells().contains(
                                        d,
                                    );
                                let ks = groups_to_merge@[si];
                                assert(msf[ks as int] == old(matches)@[ks as int]);
                                let tmc = (old(matches)@[ks as int]->0).spec_color();
                                assert((ms_scan[ks as int]->0).spec_color().spec_matches(
                                    rcolor,
                                ));
                                assert(tmc.spec_matches(rcolor));
                                C::lemma_matches_commutative(tmc, rcolor);
                                assert(color_on_board(tmc, colors));
                                assert(g1c.spec_matches(tmc));
                                assert(k1 != ks as int);
                                assert(old(matches)@[k1] is Some && old(
                                    matches,
                                )@[ks as int] is Some);
                                assert(groups_adjacent(
                                    old(matches)@[k1]->0,
                                    old(matches)@[ks as int]->0,
                                    neighbours@,
                                )) by {
                                    assert((old(matches)@[k1]->0).spec_cells()[a] == c1);
                                    assert((old(matches)@[ks as int]->0).spec_cells().contains(
                                        d,
                                    ));
                                    assert(neighbours@[(old(
                                        matches,
                                    )@[k1]->0).spec_cells()[a] as int]@[u] == d);
                                }
                                assert(false);
                            }
                        } else {
                            let g2c = (msn[k2]->0).spec_color();
                            assert(color_on_board(g2c, colors));
                            assert(color_on_board(mergedc, colors));
                            C::lemma_matches_commutative(mergedc, g2c);
                            assert(g2c.spec_matches(mergedc));
                            assert(g2c.spec_matches(rcolor));
                            assert((msn[merged as int]->0).spec_cells().contains(c1));
                            if (msf[merged as int]->0).spec_cells().contains(c1) {
                                let w = choose|w: int|
                                    0 <= w < (msf[merged as int]->0).spec_cells().len() && (
                                    msf[merged as int]->0).spec_cells()[w] == c1;
                                if w < base {
                                    assert((old(matches)@[merged as int]->0).spec_cells()[w]
                                        == c1);
                                    assert(old(matches)@[merged as int] is Some && old(
                                        matches,
                                    )@[k2] is Some);
                                    assert(groups_adjacent(
                                        old(matches)@[merged as int]->0,
                                        old(matches)@[k2]->0,
                                        neighbours@,
                                    )) by {
                                        assert((old(
                                            matches,
                                        )@[merged as int]->0).spec_cells().contains(c1));
                                        let a2 = choose|a2: int|
                                            0 <= a2 < (old(
                                                matches,
                                            )@[merged as int]->0).spec_cells().len() && (old(
                                                matches,
                                            )@[merged as int]->0).spec_cells()[a2] == c1;
                                        assert((old(matches)@[k2]->0).spec_cells().contains(d));
                                        assert(neighbours@[(old(
                                            matches,
                                        )@[merged as int]->0).spec_cells()[a2] as int]@[u]
                                            == d);
                                    }
                                    assert(false);
                                } else {
                                    let jr = w - base;
                                    assert(run[jr] == c1);
                                    assert(cell_claim(
                                        ms_scan,
                                        old(match_board)@,
                                        neighbours@[run[jr] as int]@[u] as int,
                                        rcolor,
                                        Some(merged),
                                        groups_to_merge@,
                                    ));
                                    assert(neighbours@[run[jr] as int]@[u] == d);
                                    let ci2 = choose|ci2: int|
                                        0 <= ci2 < (old(matches)@[k2]->0).spec_cells().len()
                                            && (old(matches)@[k2]->0).spec_cells()[ci2] == d;
                                    assert((old(matches)@[k2]->0).spec_cells()[ci2] == d);
                                    assert(old(match_board)@[d as int]@.contains(k2 as usize));
                                    let t2 = choose|t2: int|
                                        0 <= t2 < old(match_board)@[d as int]@.len() && old(
                                            match_board,
                                        )@[d as int]@[t2] == k2 as usize;
                                    assert(old(match_board)@[d as int]@[t2] == k2 as usize);
                                    assert(ms_scan[k2] is Some && (ms_scan[k2]->0).spec_color()
                                        == g2c);
                                    assert(false);
                                }
                            } else {
                                let si = choose|si: int|
                                    0 <= si < groups_to_merge@.len() && (msf[#[trigger] groups_to_merge@[si] as int]->0).spec_cells().contains(
                                        c1,
                                    );
                                let ks = groups_to_merge@[si];
                                assert(msf[ks as int] == old(matches)@[ks as int]);
                                let tmc = (old(matches)@[ks as int]->0).spec_color();
                                assert((ms_scan[ks as int]->0).spec_color().spec_matches(
                                    rcolor,
                                ));
                                assert(tmc.spec_matches(rcolor));
                                C::lemma_matches_commutative(g2c, rcolor);
                                assert(color_on_board(tmc, colors));
                                assert(rcolor.spec_matches(g2c)) by {
                                    C::lemma_matches_commutative(rcolor, g2c);
                                }
                                assert(tmc.spec_matches(g2c));
                                assert(k2 != ks as int);
                                assert(old(matches)@[ks as int] is Some && old(
                                    matches,
                                )@[k2] is Some);
                                assert(groups_adjacent(
                                    old(matches)@[ks as int]->0,
                                    old(matches)@[k2]->0,
                                    neighbours@,
                                )) by {
                                    assert((old(matches)@[ks as int]->0).spec_cells().contains(
                                        c1,
                                    ));
                                    let a2 = choose|a2: int|
                                        0 <= a2 < (old(matches)@[ks as int]->0).spec_cells().len()
                                            && (old(matches)@[ks as int]->0).spec_cells()[a2]
                                            == c1;
                                    assert((old(matches)@[k2]->0).spec_cells().contains(d));
                                    assert(neighbours@[(old(
                                        matches,
                                    )@[ks as int]->0).spec_cells()[a2] as int]@[u] == d);
                                }
                                assert(false);
                            }
                        }
                    }
                }
                assert(no_adjacent_matching(matches@, neighbours@));
            }
        }
    } else {
        let index = matches.len();
        proof {
            if settings.merge_neighbours {
                assert(forall|j: int, u: int|
                    0 <= j < run.len() && 0 <= u < neighbours@[run[j] as int]@.len()
                        ==> #[trigger] cell_claim(
                        old(matches)@,
                        old(match_board)@,
                        neighbours@[run[j] as int]@[u] as int,
                        rcolor,
                        merge_group,
                        groups_to_merge@,
                    ));
            }
        }
        let mut i4: usize = 0;
        while i4 < group.cells().len()
            invariant
                i4 <= group.spec_cells().len(),
                match_board@.len() == ncells,
                board_wf(match_board@, matches@.len() as int + 1, ncells),
                matches@ == old(matches)@,
                index == matches@.len(),
                forall|c: int|
                    0 <= c < ncells ==> #[trigger] match_board@[c]@ == (if (exists|j: int|
                        0 <= j < i4 && run[j] == c as usize) {
                        old(match_board)@[c]@.push(index)
                    } else {
                        old(match_board)@[c]@
                    }),
                forall|j: int|
                    0 <= j < i4 ==> match_board@[#[trigger] run[j] as int]@.contains(index),
                forall|c: int, x: usize|
                    0 <= c < ncells && old(match_board)@[c]@.contains(x)
                        ==> #[trigger] match_board@[c]@.contains(x),
                forall|j: int|
                    0 <= j < run.len() ==> #[trigger] cell_claim(
                        matches@,
                        match_board@,
                        run[j] as int,
                        rcolor,
                        merge_group,
                        groups_to_merge@,
                    ),
            decreases group.spec_cells().len() - i4,
        {
            let x = group.cells()[i4];
            let ghost mb_pre = match_board@;
            row_push(match_board, x, index);
            proof {
                lemma_push_index(mb_pre[x as int]@, index);
                assert(match_board@[x as int]@.contains(index)) by {
                    assert(match_board@[x as int]@[mb_pre[x as int]@.len() as int] == index);
                }
                assert forall|c: int, v: usize|
                    0 <= c < ncells && mb_pre[c]@.contains(v) implies #[trigger] match_board@[c]@.contains(
                    v,
                ) by {
                    if c == x as int {
                        let t2 = choose|t2: int|
                            0 <= t2 < mb_pre[c]@.len() && mb_pre[c]@[t2] == v;
                        assert(match_board@[c]@[t2] == v);
                    }
                }
                assert forall|j: int|
                    0 <= j < i4 + 1 implies match_board@[#[trigger] run[j] as int]@.contains(
                    index,
                ) by {
                    if j < i4 {
                        assert(mb_pre[run[j] as int]@.contains(index));
                    }
                }
                assert forall|c: int|
                    0 <= c < ncells implies #[trigger] match_board@[c]@ == (if (exists|j: int|
                        0 <= j < i4 + 1 && run[j] == c as usize) {
                        old(match_board)@[c]@.push(index)
                    } else {
                        old(match_board)@[c]@
                    }) by {
                    if c == x as int {
                        assert(run[i4 as int] == x);
                        assert(!(exists|j: int| 0 <= j < i4 && run[j] == c as usize)) by {
                            if exists|j: int| 0 <= j < i4 && run[j] == c as usize {
                                let j = choose|j: int| 0 <= j < i4 && run[j] == c as usize;
                                assert(run[j] != run[i4 as int]);
                            }
                        }
                        assert(mb_pre[c]@ == old(match_board)@[c]@);
                        assert(match_board@[c]@ == mb_pre[c]@.push(index));
                    } else {
                        assert(match_board@[c]@ == mb_pre[c]@);
                        if exists|j: int| 0 <= j < i4 + 1 && run[j] == c as usize {
                            let j = choose|j: int| 0 <= j < i4 + 1 && run[j] == c as usize;
                            assert(j < i4);
                            assert(exists|j2: int| 0 <= j2 < i4 && run[j2] == c as usize);
                        }
                    }
                }
                assert forall|j: int| 0 <= j < run.len() implies #[trigger] cell_claim(
                    matches@,
                    match_board@,
                    run[j] as int,
                    rcolor,
                    merge_group,
                    groups_to_merge@,
                ) by {
                    assert(cell_claim(
                        matches@,
                        mb_pre,
                        run[j] as int,
                        rcolor,
                        merge_group,
                        groups_to_merge@,
                    ));
                    assert forall|t2: int|
                        0 <= t2 < match_board@[run[j] as int]@.len() implies {
                        let k = #[trigger] match_board@[run[j] as int]@[t2] as int;
                        0 <= k < matches@.len() && matches@[k] is Some && (
                        matches@[k]->0).spec_color().spec_matches(rcolor) ==> merge_group is Some
                            && (k == merge_group->0 as int || groups_to_merge@.contains(
                            k as usize,
                        ))
                    } by {
                        if run[j] as int == x as int && t2 >= mb_pre[x as int]@.len() {
                            assert(match_board@[run[j] as int]@[t2] == index);
                        } else {
                            assert(match_board@[run[j] as int]@[t2] == mb_pre[run[j] as int]@[t2]);
                        }
                    }
                }
            }
            i4 = i4 + 1;
        }
        proof {
            group.spec_cells().unique_seq_to_set();
            assert(group_wf(group, ncells, min));
        }
        let ghost ms_pre_push = matches@;
        matches.push(Some(group));
        proof {
            lemma_push_index(ms_pre_push, matches@[matches@.len() - 1]);
            assert(forall|k2: int| 0 <= k2 < ms_pre_push.len() ==> matches@[k2] == ms_pre_push[k2]);
            assert(matches@[matches@.len() - 1] is Some);
            assert(groups_on_board(matches@, colors)) by {
                assert forall|kq: int|
                    0 <= kq < matches@.len() && matches@[kq] is Some implies #[trigger] color_on_board(
                    (matches@[kq]->0).spec_color(),
                    colors,
                ) by {
                    if kq < index as int {
                        assert(matches@[kq] == ms_pre_push[kq]);
                    }
                }
            }
            assert(board_complete(matches@, match_board@)) by {
                assert forall|k: int, ci: int|
                    0 <= k < matches@.len() && matches@[k] is Some && 0 <= ci < (
                    matches@[k]->0).spec_cells().len() implies match_board@[(
                #[trigger] (matches@[k]->0).spec_cells()[ci]) as int]@.contains(k as usize) by {
                    if k == index as int {
                        assert((matches@[k]->0).spec_cells() == run);
                        assert(match_board@[run[ci] as int]@.contains(index));
                    } else {
                        assert(matches@[k] == ms_pre_push[k]);
                        assert(group_wf(matches@[k]->0, ncells, min));
                        assert(old(match_board)@[(
                        matches@[k]->0).spec_cells()[ci] as int]@.contains(k as usize));
                        assert(match_board@[(matches@[k]->0).spec_cells()[ci] as int]@.contains(
                            k as usize,
                        ));
                    }
                }
            }
            assert((matches@[index as int]->0).spec_cells() == run);
            assert((matches@[index as int]->0).spec_color() == rcolor);
            assert forall|c: int|
                0 <= c < ncells implies #[trigger] match_board@[c]@ == (if run.contains(
                c as usize,
            ) {
                old(match_board)@[c]@.push(index)
            } else {
                old(match_board)@[c]@
            }) by {
                if run.contains(c as usize) {
                    let j = choose|j: int| 0 <= j < run.len() && run[j] == c as usize;
                    assert(exists|j2: int| 0 <= j2 < run.len() && run[j2] == c as usize);
                } else {
                    if exists|j2: int| 0 <= j2 < run.len() && run[j2] == c as usize {
                        let j2 = choose|j2: int| 0 <= j2 < run.len() && run[j2] == c as usize;
                        assert(run.contains(c as usize));
                    }
                }
            }
            assert forall|c: usize|
                cell_in_alive(old(matches)@, c) implies cell_in_alive(matches@, c) by {
                let k = choose|k: int|
                    0 <= k < old(matches)@.len() && old(matches)@[k] is Some && (old(
                    matches,
                    )@[k]->0).spec_cells().contains(c);
                assert(matches@[k] == old(matches)@[k]);
            }
            assert forall|c: usize|
                cell_in_alive(matches@, c) implies cell_in_alive(old(matches)@, c)
                    || run.contains(c) by {
                let k = choose|k: int|
                    0 <= k < matches@.len() && matches@[k] is Some && (
                    matches@[k]->0).spec_cells().contains(c);
                if k < index as int {
                    assert(old(matches)@[k] == matches@[k]);
                } else {
                    assert(k == index as int);
                }
            }
            assert forall|j: int|
                0 <= j < run.len() implies (#[trigger] (
            matches@[index as int]->0).spec_cells().contains(run[j])) by {
                assert((matches@[index as int]->0).spec_cells()[j] == run[j]);
            }
            if wb {
                assert(disjoint_matching(matches@)) by {
                    assert forall|k1: int, k2: int|
                        #![trigger matches@[k1], matches@[k2]]
                        0 <= k1 < matches@.len() && 0 <= k2 < matches@.len() && k1 != k2
                            && matches@[k1] is Some && matches@[k2] is Some && (
                        matches@[k1]->0).spec_color().spec_matches(
                            (matches@[k2]->0).spec_color(),
                        ) implies groups_disjoint(matches@[k1]->0, matches@[k2]->0) by {
                        if k1 == index as int || k2 == index as int {
                            let ko = if k1 == index as int {
                                k2
                            } else {
                                k1
                            };
                            C::lemma_matches_commutative(
                                (matches@[k1]->0).spec_color(),
                                (matches@[k2]->0).spec_color(),
                            );
                            assert((matches@[ko]->0).spec_color().spec_matches(rcolor));
                            assert forall|ci: int|
                                0 <= ci < (matches@[k1]->0).spec_cells().len() implies !(
                                matches@[k2]->0).spec_cells().contains(
                                #[trigger] (matches@[k1]->0).spec_cells()[ci],
                            ) by {
                                if (matches@[k2]->0).spec_cells().contains(
                                    (matches@[k1]->0).spec_cells()[ci],
                                ) {
                                    let c = (matches@[k1]->0).spec_cells()[ci];
                                    let cio = choose|cio: int|
                                        0 <= cio < (matches@[ko]->0).spec_cells().len() && (
                                        matches@[ko]->0).spec_cells()[cio] == c;
                                    let cir = if k1 == index as int {
                                        ci
                                    } else {
                                        choose|cir: int|
                                            0 <= cir < run.len() && run[cir] == c
                                    };
                                    assert(run.contains(c));
                                    assert(old(match_board)@[c as int]@.contains(ko as usize));
                                    let j = choose|j: int| 0 <= j < run.len() && run[j] == c;
                                    assert(cell_claim(
                                        ms_pre_push,
                                        old(match_board)@,
                                        run[j] as int,
                                        rcolor,
                                        merge_group,
                                        groups_to_merge@,
                                    ));
                                    let t2 = choose|t2: int|
                                        0 <= t2 < old(match_board)@[c as int]@.len() && old(
                                            match_board,
                                        )@[c as int]@[t2] == ko as usize;
                                    assert(false);
                                }
                            }
                        } else {
                            assert(matches@[k1] == ms0[k1] && matches@[k2] == ms0[k2]);
                        }
                    }
                }
                assert(cells_match_wf(matches@, colors)) by {
                    assert forall|k: int|
                        0 <= k < matches@.len() && matches@[k] is Some implies #[trigger] group_cells_match(
                        matches@[k]->0,
                        colors,
                    ) by {
                        if k < index as int {
                            assert(matches@[k] == ms0[k]);
                        }
                    }
                }
            }
            assert(ms_pre_push == old(matches)@);
            assert(groups_absorbed(old(matches)@, matches@)) by {
                assert forall|k: int|
                    0 <= k < old(matches)@.len() && old(matches)@[k] is Some implies #[trigger] group_absorbed(
                    old(matches)@[k]->0,
                    matches@,
                ) by {
                    assert(matches@[k] == old(matches)@[k]);
                    assert(0 <= k < matches@.len() && matches@[k] is Some && forall|c: usize|
                        #[trigger] (old(matches)@[k]->0).spec_cells().contains(c) ==> (
                        matches@[k]->0).spec_cells().contains(c));
                }
            }
            if settings.merge_neighbours && neighbours_sym(neighbours@) && wb
                && no_adjacent_matching(old(matches)@, neighbours@) {
                let msn = matches@;
                assert(neighbours@.len() == ncells);
                assert(color_on_board(rcolor, colors));
                assert forall|k1: int, k2: int|
                    #![trigger msn[k1], msn[k2]]
                    0 <= k1 < msn.len() && 0 <= k2 < msn.len() && k1 != k2 && msn[k1] is Some
                        && msn[k2] is Some && (msn[k1]->0).spec_color().spec_matches(
                        (msn[k2]->0).spec_color(),
                    ) implies !groups_adjacent(msn[k1]->0, msn[k2]->0, neighbours@) by {
                    if groups_adjacent(msn[k1]->0, msn[k2]->0, neighbours@) {
                        let (a, u) = choose|a: int, u: int|
                            0 <= a < (msn[k1]->0).spec_cells().len() && 0 <= u < neighbours@[(
                            msn[k1]->0).spec_cells()[a] as int]@.len() && (
                            msn[k2]->0).spec_cells().contains(
                                #[trigger] neighbours@[(msn[k1]->0).spec_cells()[a] as int]@[u],
                            );
                        let c1 = (msn[k1]->0).spec_cells()[a];
                        let d = neighbours@[c1 as int]@[u];
                        assert((msn[k2]->0).spec_cells().contains(d));
                        assert(group_wf(msn[k1]->0, ncells, min));
                        assert(c1 < ncells);
                        if k1 != index as int && k2 != index as int {
                            assert(msn[k1] == old(matches)@[k1] && msn[k2] == old(matches)@[k2]);
                            assert(old(matches)@[k1] is Some && old(matches)@[k2] is Some);
                            assert(!groups_adjacent(
                                old(matches)@[k1]->0,
                                old(matches)@[k2]->0,
                                neighbours@,
                            ));
                            assert(false);
                        } else if k2 == index as int {
                            let g1c = (msn[k1]->0).spec_color();
                            assert((msn[k2]->0).spec_color() == rcolor);
                            assert(g1c.spec_matches(rcolor));
                            assert((msn[index as int]->0).spec_cells() == run);
                            assert(run.contains(d));
                            let jr = choose|jr: int| 0 <= jr < run.len() && run[jr] == d;
                            assert(d < ncells);
                            assert(neighbours@[d as int]@.contains(c1));
                            let u2 = choose|u2: int|
                                0 <= u2 < neighbours@[d as int]@.len() && neighbours@[d as int]@[u2]
                                    == c1;
                            assert(cell_claim(
                                old(matches)@,
                                old(match_board)@,
                                neighbours@[run[jr] as int]@[u2] as int,
                                rcolor,
                                merge_group,
                                groups_to_merge@,
                            ));
                            assert(neighbours@[run[jr] as int]@[u2] == c1);
                            assert(msn[k1] == old(matches)@[k1]);
                            assert((old(matches)@[k1]->0).spec_cells()[a] == c1);
                            assert(old(match_board)@[c1 as int]@.contains(k1 as usize));
                            let t2 = choose|t2: int|
                                0 <= t2 < old(match_board)@[c1 as int]@.len() && old(
                                    match_board,
                                )@[c1 as int]@[t2] == k1 as usize;
                            assert(old(match_board)@[c1 as int]@[t2] == k1 as usize);
                            assert(old(matches)@[k1] is Some && (old(
                                matches,
                            )@[k1]->0).spec_color() == g1c);
                            assert(false);
                        } else {
                            let g2c = (msn[k2]->0).spec_color();
                            assert((msn[k1]->0).spec_color() == rcolor);
                            assert(rcolor.spec_matches(g2c));
                            C::lemma_matches_commutative(rcolor, g2c);
                            assert(g2c.spec_matches(rcolor));
                            assert((msn[k1]->0).spec_cells() == run);
                            assert(run[a] == c1);
                            assert(cell_claim(
                                old(matches)@,
                                old(match_board)@,
                                neighbours@[run[a] as int]@[u] as int,
                                rcolor,
                                merge_group,
                                groups_to_merge@,
                            ));
                            assert(neighbours@[run[a] as int]@[u] == d);
                            assert(msn[k2] == old(matches)@[k2]);
                            let ci2 = choose|ci2: int|
                                0 <= ci2 < (old(matches)@[k2]->0).spec_cells().len() && (old(
                                    matches,
                                )@[k2]->0).spec_cells()[ci2] == d;
                            assert((old(matches)@[k2]->0).spec_cells()[ci2] == d);
                            assert(old(match_board)@[d as int]@.contains(k2 as usize));
                            let t2 = choose|t2: int|
                                0 <= t2 < old(match_board)@[d as int]@.len() && old(
                                    match_board,
                                )@[d as int]@[t2] == k2 as usize;
                            assert(old(match_board)@[d as int]@[t2] == k2 as usize);
                            assert(old(matches)@[k2] is Some && (old(
                                matches,
                            )@[k2]->0).spec_color() == g2c);
                            assert(false);
                        }
                    }
                }
                assert(no_adjacent_matching(matches@, neighbours@));
            }
        }
    }
}

/// A line on which one run must close over the whole line: every cell may
/// start a run, none is skippable, every cell matches the first cell's color,
/// and the line is long enough for the settings' minima.
pub open spec fn uniform_matchable_line<Gem: BoardGem>(
    cells: Seq<Gem>,
    line: Seq<usize>,
    s: LineMatcherSettings,
) -> bool {
    &&& line.len() >= s.line_size
    &&& line.len() >= s.spec_min_group()
    &&& line.len() >= 1
    &&& forall|j: int|
        0 <= j < line.len() ==> (#[trigger] cells[line[j] as int].spec_color()).spec_can_start_match()
    &&& forall|j: int|
        0 <= j < line.len() ==> !(
        #[trigger] cells[line[j] as int].spec_color()).spec_hint_is_unmatchable()
    &&& forall|j: int|
        0 <= j < line.len() ==> cells[line[0] as int].spec_color().spec_matches(
            (#[trigger] cells[line[j] as int].spec_color()),
        )
}

/// Scans one line: grows a run while cells keep matching its color, closes
/// the run when a cell breaks it or the line ends, lets a fresh run capture
/// matching cells right before it when the cell just before its start was a
/// wildcard, and abandons a run early when the rest of the line cannot reach
/// `line_size` any more.
#[verifier::rlimit(100)]
fn match_line<Gem: BoardGem>(
    settings: &LineMatcherSettings,
    cells: &Vec<Gem>,
    neighbours: &Vec<Vec<usize>>,
    line: &Vec<usize>,
    matches: &mut Vec<Option<BoardMatch<Gem::Color>>>,
    match_board: &mut Vec<Vec<usize>>,
    Ghost(lines): Ghost<Seq<Vec<usize>>>,
    Ghost(li): Ghost<int>,
)
    requires
        0 <= li < lines.len(),
        lines[li]@ == line@,
        seeds_wf(old(matches)@, lines, settings.line_size as int),
        cells@.len() < usize::MAX / 2,
        old(match_board)@.len() == cells@.len(),
        neighbours_wf(neighbours@, cells@.len() as int),
        line_wf(line@, cells@.len() as int),
        board_wf(old(match_board)@, old(matches)@.len() as int, cells@.len() as int),
        matches_wf(old(matches)@, cells@.len() as int, settings.spec_min_keep()),
        board_complete(old(matches)@, old(match_board)@),
        groups_on_board(old(matches)@, colors_of_gems(cells@)),
        colors_well_behaved(colors_of_gems(cells@)) ==> cells_match_wf(
            old(matches)@,
            colors_of_gems(cells@),
        ) && disjoint_matching(old(matches)@),
    ensures
        final (match_board)@.len() == cells@.len(),
        final (matches)@.len() >= old(matches)@.len(),
        board_wf(final (match_board)@, final (matches)@.len() as int, cells@.len() as int),
        matches_wf(final (matches)@, cells@.len() as int, settings.spec_min_keep()),
        board_complete(final (matches)@, final (match_board)@),
        exists_alive(old(matches)@) ==> exists_alive(final (matches)@),
        uniform_matchable_line(cells@, line@, *settings) ==> exists_alive(final (matches)@),
        groups_on_board(final (matches)@, colors_of_gems(cells@)),
        seeds_wf(final (matches)@, lines, settings.line_size as int),
        colors_well_behaved(colors_of_gems(cells@)) ==> cells_match_wf(
            final (matches)@,
            colors_of_gems(cells@),
        ) && disjoint_matching(final (matches)@),
        forall|c: usize|
            cell_in_alive(old(matches)@, c) ==> cell_in_alive(final (matches)@, c),
        groups_absorbed(old(matches)@, final (matches)@),
        (settings.merge_neighbours && neighbours_sym(neighbours@) && colors_well_behaved(
            colors_of_gems(cells@),
        ) && no_adjacent_matching(old(matches)@, neighbours@)) ==> no_adjacent_matching(
            final (matches)@,
            neighbours@,
        ),
        // Exhaustiveness: no live segment of the line survives with any of
        // its cells unclaimed — one alive group covers the segment whole.
        (colors_well_behaved(colors_of_gems(cells@)) && settings.spec_min_group()
            <= settings.line_size as int) ==> forall|j: int|
            #[trigger] live_segment(
                colors_of_gems(cells@),
                line@,
                j,
                settings.line_size as int,
            ) ==> segment_in_alive(final (matches)@, line@, j, settings.line_size as int),
{
    let ghost ncells = cells@.len() as int;
    let ghost min = settings.spec_min_keep();
    let ghost uniform = uniform_matchable_line(cells@, line@, *settings);
    let ghost wb = colors_well_behaved(colors_of_gems(cells@));
    let ghost colors = colors_of_gems(cells@);
    if line.len() < settings.line_size {
        proof {
            lemma_groups_absorbed_refl(matches@);
        }
        return;
    }
    let ghost ls = settings.line_size as int;
    let ghost hyp = wb && settings.spec_min_group() <= ls;
    let ghost adjh = settings.merge_neighbours && neighbours_sym(neighbours@) && wb
        && no_adjacent_matching(old(matches)@, neighbours@);
    let mut current: Option<BoardMatch<Gem::Color>> = None;
    let ghost mut lo: int = 0;
    let mut was_wildcard = false;
    let mut halted = false;
    let mut i: usize = 0;
    proof {
        lemma_groups_absorbed_refl(matches@);
    }
    while !halted && i < line.len()
        invariant
            i <= line.len(),
            match_board@.len() == ncells,
            matches@.len() >= old(matches)@.len(),
            matches_wf(matches@, ncells, min),
            board_wf(match_board@, matches@.len() as int, ncells),
            exists_alive(old(matches)@) ==> exists_alive(matches@),
            board_complete(matches@, match_board@),
            groups_on_board(matches@, colors),
            seeds_wf(matches@, lines, settings.line_size as int),
            wb ==> cells_match_wf(matches@, colors) && disjoint_matching(matches@),
            forall|c: usize| cell_in_alive(old(matches)@, c) ==> cell_in_alive(matches@, c),
            groups_absorbed(old(matches)@, matches@),
            adjh ==> no_adjacent_matching(matches@, neighbours@),
            hyp ==> forall|j: int|
                #[trigger] live_segment(colors, line@, j, ls) && j < i ==> (segment_in_alive(
                    matches@,
                    line@,
                    j,
                    ls,
                ) || (current is Some && lo <= j) || (current is None && forall|u: int|
                    j <= u < i ==> !(
                    #[trigger] colors[line@[u] as int]).spec_can_start_match())),
            !halted && i > 0 ==> was_wildcard == (!colors[line@[i - 1] as int].spec_can_start_match()
                && !colors[line@[i - 1] as int].spec_hint_is_unmatchable()),
            halted ==> current is None,
            hyp && halted ==> forall|j: int|
                #[trigger] live_segment(colors, line@, j, ls) ==> segment_in_alive(
                    matches@,
                    line@,
                    j,
                    ls,
                ),
            i == 0 ==> current is None,
            uniform ==> !halted,
            current is Some ==> color_on_board(current->0.spec_color(), colors),
            current is Some ==> 0 <= lo <= i,
            current is Some ==> current->0.spec_cells() == line@.subrange(lo, i as int),
            current is Some ==> current->0.spec_color().spec_can_start_match(),
            wb && current is Some ==> group_cells_match(current->0, colors),
            uniform && i > 0 ==> current is Some && lo == 0 && current->0.spec_color()
                == cells@[line@[0] as int].spec_color(),
        decreases line.len() - i, (if halted {
            0int
        } else {
            1int
        }),
    {
        let pos = line[i];
        let gem_color = cells[pos].color();
        let can_start = gem_color.can_start_match();
        let can_be_matched = !gem_color.hint_is_unmatchable();
        let ghost ms_head = matches@;
        let ghost head_some = current is Some;
        let ghost head_lo = lo;
        let ghost head_color = current->0.spec_color();
        let ghost head_cells = current->0.spec_cells();
        proof {
            if head_some {
                assert(head_cells == line@.subrange(head_lo, i as int));
                assert(color_on_board(head_color, colors));
                if wb {
                    assert(group_cells_match_seq(head_color, head_cells, colors));
                }
            }
        }

        let mut need_close = false;
        match &mut current {
            Some(mg) => {
                let c = *mg.color();
                if c.matches(&gem_color) {
                    let ghost run_pre = mg.spec_cells();
                    mg.cells_mut().push(pos);
                    proof {
                        assert(line@.subrange(lo, i + 1) =~= line@.subrange(lo, i as int).push(
                            pos,
                        ));
                        if wb && group_cells_match_seq::<Gem::Color>(c, run_pre, colors) {
                            assert forall|ci: int|
                                0 <= ci < mg.spec_cells().len() implies c.spec_matches(
                                colors[#[trigger] mg.spec_cells()[ci] as int],
                            ) by {
                                if ci < run_pre.len() {
                                    assert(mg.spec_cells()[ci] == run_pre[ci]);
                                } else {
                                    assert(mg.spec_cells()[ci] == pos);
                                }
                            }
                        }
                    }
                } else {
                    need_close = true;
                }
            },
            None => {},
        }

        if need_close {
            proof {
                if uniform {
                    assert(cells@[line@[0] as int].spec_color().spec_matches(
                        cells@[line@[i as int] as int].spec_color(),
                    ));
                    assert(false);
                }
            }
            let run = current.take().unwrap();
            proof {
                lemma_subrange_no_dup(line@, lo, i as int);
                assert forall|k: int|
                    0 <= k < run.spec_cells().len() implies run.spec_cells()[k] < ncells by {
                    assert(run.spec_cells()[k] == line@[lo + k]);
                }
            }
            let ghost ms_cpre = matches@;
            let ghost run_c = run.spec_cells();
            close_match(settings, neighbours, run, matches, match_board, Ghost(colors));

            proof {
                assert(seeds_wf(matches@, lines, settings.line_size as int)) by {
                    assert forall|kq: int|
                        0 <= kq < matches@.len() && matches@[kq] is Some implies #[trigger] group_has_seed(
                        matches@[kq]->0,
                        lines,
                        settings.line_size as int,
                    ) by {
                        let ls = settings.line_size as int;
                        if kq < ms_cpre.len() && ms_cpre[kq] is Some {
                            assert(group_has_seed(ms_cpre[kq]->0, lines, ls));
                            assert forall|c: usize|
                                #[trigger] (ms_cpre[kq]->0).spec_cells().contains(c) implies (
                            matches@[kq]->0).spec_cells().contains(c) by {}
                            lemma_seed_grows(ms_cpre[kq]->0, matches@[kq]->0, lines, ls);
                        } else {
                            assert(run_c.len() >= ls) by {
                                if run_c.len() < ls {
                                    assert(matches@ == ms_cpre);
                                }
                            }
                            assert forall|t: int|
                                0 <= t < ls implies #[trigger] (
                            matches@[kq]->0).spec_cells().contains(lines[li]@[lo + t]) by {
                                assert(run_c[t] == line@[lo + t]);
                                assert((matches@[kq]->0).spec_cells().contains(run_c[t]));
                            }
                            assert(0 <= lo && lo + ls <= lines[li]@.len());
                            assert(seed_at(matches@[kq]->0, lines, ls, li, lo));
                        }
                    }
                }
            }
        }

        if current.is_none() && can_start && can_be_matched {
            let mut run = BoardMatch::new(gem_color);
            proof {
                lo = i as int;
                assert(run.spec_cells() =~= line@.subrange(lo, i as int));
            }
            let mut backstop = false;
            if was_wildcard {
                let mut j: usize = i;
                while j > 0 && !backstop
                    invariant
                        j <= i,
                        i < line.len(),
                        run.spec_cells() == line@.subrange(j as int, i as int),
                        run.spec_color() == cells@[line@[i as int] as int].spec_color(),
                        lo == j as int,
                        backstop ==> j >= 1 && !run.spec_color().spec_matches(
                            colors[line@[j - 1] as int],
                        ),
                        wb ==> group_cells_match_seq::<Gem::Color>(
                            run.spec_color(),
                            run.spec_cells(),
                            colors,
                        ),
                    decreases j, (if backstop {
                        0int
                    } else {
                        1int
                    }),
                {
                    let back_pos = line[j - 1];
                    let back_color = cells[back_pos].color();
                    let rc = *run.color();
                    if !rc.matches(&back_color) {
                        backstop = true;
                    } else {
                    let ghost run_pre = run.spec_cells();
                    run.cells_mut().insert(0, back_pos);
                    proof {
                        assert(line@.subrange(j - 1, i as int) =~= line@.subrange(
                            j as int,
                            i as int,
                        ).insert(0, line@[j - 1]));
                        if wb && group_cells_match_seq::<Gem::Color>(rc, run_pre, colors) {
                            assert forall|ci: int|
                                0 <= ci < run.spec_cells().len() implies rc.spec_matches(
                                colors[#[trigger] run.spec_cells()[ci] as int],
                            ) by {
                                lemma_insert_contains(run_pre, 0, back_pos, run.spec_cells()[ci]);
                                assert(run.spec_cells() == run_pre.insert(0, back_pos));
                                if ci == 0 {
                                    assert(run.spec_cells()[0] == back_pos);
                                } else {
                                    assert(run.spec_cells()[ci] == run_pre[ci - 1]);
                                }
                            }
                        }
                    }
                    j = j - 1;
                    proof {
                        lo = j as int;
                    }
                    }
                }
            }
            proof {
                assert(was_wildcard ==> (lo == 0 || !(
                cells@[line@[i as int] as int].spec_color()).spec_matches(
                    colors[line@[lo - 1] as int],
                )));
                assert(!was_wildcard ==> lo == i as int);
                assert(0 <= lo <= i as int);
                // A segment the scan walked over without starting a run gets
                // captured whole by the back-extension: the fresh run reaches
                // back at least to the segment's start.
                if hyp {
                    assert forall|jseg: int|
                        #[trigger] live_segment(colors, line@, jseg, ls) && jseg < i && (forall|
                            u: int,
                        |
                            jseg <= u < i ==> !(
                            #[trigger] colors[line@[u] as int]).spec_can_start_match()) implies lo
                        <= jseg by {
                        let p = choose|p: int|
                            0 <= p < ls && (
                            #[trigger] colors[line@[jseg + p] as int]).spec_can_start_match();
                        assert(jseg + p >= i) by {
                            if jseg + p < i {
                                assert(!(colors[line@[jseg + p] as int]).spec_can_start_match());
                            }
                        }
                        assert(i as int - jseg <= p);
                        let tw: int = i as int - 1 - jseg;
                        assert(0 <= tw < ls);
                        assert(!(colors[line@[jseg + tw] as int]).spec_hint_is_unmatchable());
                        assert(jseg + tw == i as int - 1);
                        assert(!(colors[line@[i - 1] as int]).spec_can_start_match());
                        assert(was_wildcard);
                        if lo > jseg {
                            assert(lo >= 1);
                            let sw: int = i as int - jseg;
                            let tw2: int = lo - 1 - jseg;
                            assert(0 <= sw < ls && 0 <= tw2 < ls);
                            assert((colors[line@[jseg + sw] as int]).spec_matches(
                                colors[line@[jseg + tw2] as int],
                            ));
                            assert(jseg + sw == i as int && jseg + tw2 == lo - 1);
                            assert(colors[line@[i as int] as int] == gem_color);
                            assert(gem_color.spec_matches(colors[line@[lo - 1] as int]));
                            assert(gem_color == cells@[line@[i as int] as int].spec_color());
                            assert(false);
                        }
                    }
                }
            }
            if run.cells().len() + 1 + (line.len() - i - 1) < settings.line_size {
                proof {
                    if uniform {
                        if i > 0 {
                            assert(false);
                        } else {
                            assert(run.spec_cells().len() == 0);
                            assert(false);
                        }
                    }
                    if hyp {
                        assert forall|j: int|
                            #[trigger] live_segment(colors, line@, j, ls) implies segment_in_alive(
                            matches@,
                            line@,
                            j,
                            ls,
                        ) by {
                            assert(j + ls <= line@.len());
                            assert(j < i) by {
                                if j >= i {
                                    assert(line@.len() - lo < ls);
                                }
                            }
                            if segment_in_alive(ms_head, line@, j, ls) {
                                if need_close {
                                    lemma_segment_absorbed(ms_head, matches@, line@, j, ls);
                                } else {
                                    assert(matches@ == ms_head);
                                }
                            } else if head_some && head_lo <= j {
                                assert(need_close);
                                if j + ls <= i as int {
                                    let rcs = line@.subrange(head_lo, i as int);
                                    assert(rcs.len() >= ls && rcs.len()
                                        >= settings.spec_min_group());
                                    let k = choose|k: int|
                                        0 <= k < matches@.len() && matches@[k] is Some && forall|
                                            jj: int,
                                        |
                                            0 <= jj < rcs.len() ==> (
                                            #[trigger] matches@[k]->0).spec_cells().contains(
                                                rcs[jj],
                                            );
                                    assert forall|t: int|
                                        0 <= t < ls implies (
                                        #[trigger] (matches@[k]->0).spec_cells().contains(
                                            line@[j + t],
                                        )) by {
                                        assert(rcs[j + t - head_lo] == line@[j + t]);
                                    }
                                    assert(segment_in_alive(matches@, line@, j, ls));
                                } else {
                                    assert(head_cells[j - head_lo] == line@[j]);
                                    assert(head_color.spec_matches(colors[line@[j] as int]));
                                    let sw: int = 0;
                                    let tw: int = i as int - j;
                                    assert(0 <= sw < ls && 0 <= tw < ls);
                                    assert((colors[line@[j + sw] as int]).spec_matches(
                                        colors[line@[j + tw] as int],
                                    ));
                                    assert(colors[line@[j] as int].spec_matches(
                                        colors[line@[i as int] as int],
                                    ));
                                    assert(color_on_board(colors[line@[j] as int], colors));
                                    assert(color_on_board(
                                        colors[line@[i as int] as int],
                                        colors,
                                    ));
                                    assert(color_on_board(head_color, colors));
                                    assert(head_color.spec_matches(
                                        colors[line@[i as int] as int],
                                    ));
                                    assert(colors[line@[i as int] as int] == gem_color);
                                    assert(false);
                                }
                            } else {
                                // the scan walked the segment without a run:
                                // back-extension reached its start, so the
                                // halt bound cannot hold
                                assert(forall|u: int|
                                    j <= u < i ==> !(
                                    #[trigger] colors[line@[u] as int]).spec_can_start_match());
                                assert(lo <= j);
                                assert(line@.len() - lo < ls);
                                assert(false);
                            }
                        }
                    }
                }
                halted = true;
            } else {
                let ghost run_pre = run.spec_cells();
                run.cells_mut().push(pos);
                proof {
                    assert(line@.subrange(lo, i + 1) =~= line@.subrange(lo, i as int).push(
                        pos,
                    ));
                    assert(color_on_board(gem_color, colors)) by {
                        assert(colors[pos as int] == gem_color);
                    }
                    if wb && group_cells_match_seq::<Gem::Color>(
                        run.spec_color(),
                        run_pre,
                        colors,
                    ) {
                        assert(gem_color.spec_can_start_match());
                        assert(gem_color.spec_matches(gem_color));
                        assert forall|ci: int|
                            0 <= ci < run.spec_cells().len() implies run.spec_color().spec_matches(
                            colors[#[trigger] run.spec_cells()[ci] as int],
                        ) by {
                            if ci < run_pre.len() {
                                assert(run.spec_cells()[ci] == run_pre[ci]);
                            } else {
                                assert(run.spec_cells()[ci] == pos);
                            }
                        }
                    }
                }
                current = Some(run);
            }
        }
        proof {
            if uniform {
                assert(cells@[line@[i as int] as int].spec_color().spec_can_start_match());
                assert(!cells@[line@[i as int] as int].spec_color().spec_hint_is_unmatchable());
            }
        }
        proof {
            if need_close {
                lemma_groups_absorbed_trans(old(matches)@, ms_head, matches@);
            }
        }
        if !halted {
            proof {
                if hyp {
                    assert forall|j: int|
                        #[trigger] live_segment(colors, line@, j, ls) && j < i + 1 implies (
                    segment_in_alive(matches@, line@, j, ls) || (current is Some && lo <= j) || (
                    current is None && forall|u: int|
                        j <= u < i + 1 ==> !(
                        #[trigger] colors[line@[u] as int]).spec_can_start_match())) by {
                        assert(colors[line@[i as int] as int] == gem_color);
                        if j == i as int {
                            if current is Some {
                                assert(lo <= i as int);
                            } else {
                                assert(!(colors[line@[i as int] as int]).spec_can_start_match())
                                    by {
                                    if (
                                    colors[line@[i as int] as int]).spec_can_start_match() {
                                        assert(!(
                                        colors[line@[j + 0] as int]).spec_hint_is_unmatchable());
                                        assert(false);
                                    }
                                }
                                assert(forall|u: int|
                                    j <= u < i + 1 ==> !(
                                    #[trigger] colors[line@[u] as int]).spec_can_start_match());
                            }
                        } else {
                            if segment_in_alive(ms_head, line@, j, ls) {
                                if need_close {
                                    lemma_segment_absorbed(ms_head, matches@, line@, j, ls);
                                } else {
                                    assert(matches@ == ms_head);
                                }
                            } else if head_some && head_lo <= j {
                                if need_close {
                                    if j + ls <= i as int {
                                        let rcs = line@.subrange(head_lo, i as int);
                                        assert(rcs.len() >= ls && rcs.len()
                                            >= settings.spec_min_group());
                                        let k = choose|k: int|
                                            0 <= k < matches@.len() && matches@[k] is Some
                                                && forall|jj: int|
                                                0 <= jj < rcs.len() ==> (
                                                #[trigger] matches@[k]->0).spec_cells().contains(
                                                    rcs[jj],
                                                );
                                        assert forall|t: int|
                                            0 <= t < ls implies (
                                            #[trigger] (matches@[k]->0).spec_cells().contains(
                                                line@[j + t],
                                            )) by {
                                            assert(rcs[j + t - head_lo] == line@[j + t]);
                                        }
                                        assert(segment_in_alive(matches@, line@, j, ls));
                                    } else {
                                        assert(head_cells[j - head_lo] == line@[j]);
                                        assert(head_color.spec_matches(colors[line@[j] as int]));
                                        let sw: int = 0;
                                        let tw: int = i as int - j;
                                        assert(0 <= sw < ls && 0 <= tw < ls);
                                        assert((colors[line@[j + sw] as int]).spec_matches(
                                            colors[line@[j + tw] as int],
                                        ));
                                        assert(colors[line@[j] as int].spec_matches(
                                            colors[line@[i as int] as int],
                                        ));
                                        assert(color_on_board(
                                            colors[line@[j] as int],
                                            colors,
                                        ));
                                        assert(color_on_board(
                                            colors[line@[i as int] as int],
                                            colors,
                                        ));
                                        assert(color_on_board(head_color, colors));
                                        assert(head_color.spec_matches(
                                            colors[line@[i as int] as int],
                                        ));
                                        assert(false);
                                    }
                                } else {
                                    assert(matches@ == ms_head);
                                    assert(current is Some && lo <= j);
                                }
                            } else {
                                // the scan has walked [j, i) without starting
                                // a run: every cell there refuses to start one
                                assert(!head_some);
                                assert(!need_close);
                                assert(forall|u: int|
                                    j <= u < i ==> !(
                                    #[trigger] colors[line@[u] as int]).spec_can_start_match());
                                if (colors[line@[i as int] as int]).spec_can_start_match() {
                                    // a fresh run started here and back-extended
                                    // over the whole walked stretch
                                    let p = choose|p: int|
                                        0 <= p < ls && (
                                        #[trigger] colors[line@[j + p] as int]).spec_can_start_match();
                                    assert(j + p >= i) by {
                                        if j + p < i {
                                            assert(!(
                                            colors[line@[j + p] as int]).spec_can_start_match());
                                        }
                                    }
                                    let tw3: int = i as int - j;
                                    assert(0 <= tw3 < ls);
                                    assert(!(
                                    colors[line@[j + tw3] as int]).spec_hint_is_unmatchable());
                                    assert(j + tw3 == i as int);
                                    assert(lo <= j);
                                    assert(current is Some);
                                } else {
                                    assert(current is None);
                                    assert(forall|u: int|
                                        j <= u < i + 1 ==> !(
                                        #[trigger] colors[line@[u] as int]).spec_can_start_match());
                                }
                            }
                        }
                    }
                }
            }
            proof {
                assert(colors[line@[i as int] as int] == gem_color);
            }
            was_wildcard = !can_start && can_be_matched;
            i = i + 1;
        }
    }

    if current.is_some() {
        let ghost hi = i as int;
        let run = current.take().unwrap();
        proof {
            lemma_subrange_no_dup(line@, lo, hi);
            assert forall|k: int|
                0 <= k < run.spec_cells().len() implies run.spec_cells()[k] < ncells by {
                assert(run.spec_cells()[k] == line@[lo + k]);
            }
            if uniform && i == line.len() {
                assert(run.spec_cells() =~= line@.subrange(0, line@.len() as int));
                assert(run.spec_cells().len() == line@.len());
            }
        }
        let ghost ms_cpre = matches@;
        let ghost run_c = run.spec_cells();
        close_match(settings, neighbours, run, matches, match_board, Ghost(colors));

    proof {
            assert(seeds_wf(matches@, lines, settings.line_size as int)) by {
                assert forall|kq: int|
                0 <= kq < matches@.len() && matches@[kq] is Some implies #[trigger] group_has_seed(
                matches@[kq]->0,
                lines,
                settings.line_size as int,
                ) by {
                let ls = settings.line_size as int;
                if kq < ms_cpre.len() && ms_cpre[kq] is Some {
                    assert(group_has_seed(ms_cpre[kq]->0, lines, ls));
                    assert forall|c: usize|
                        #[trigger] (ms_cpre[kq]->0).spec_cells().contains(c) implies (
                    matches@[kq]->0).spec_cells().contains(c) by {}
                    lemma_seed_grows(ms_cpre[kq]->0, matches@[kq]->0, lines, ls);
                } else {
                    assert(run_c.len() >= ls) by {
                        if run_c.len() < ls {
                        assert(matches@ == ms_cpre);
                        }
                    }
                    assert forall|t: int|
                        0 <= t < ls implies #[trigger] (
                    matches@[kq]->0).spec_cells().contains(lines[li]@[lo + t]) by {
                        assert(run_c[t] == line@[lo + t]);
                        assert((matches@[kq]->0).spec_cells().contains(run_c[t]));
                    }
                    assert(0 <= lo && lo + ls <= lines[li]@.len());
                    assert(seed_at(matches@[kq]->0, lines, ls, li, lo));
                }
                }
            }
        }
        proof {
            lemma_groups_absorbed_trans(old(matches)@, ms_cpre, matches@);
            if hyp {
                assert forall|j: int|
                    #[trigger] live_segment(colors, line@, j, ls) implies segment_in_alive(
                    matches@,
                    line@,
                    j,
                    ls,
                ) by {
                    assert(!halted);
                    assert(i as int == line@.len());
                    assert(j < i);
                    if segment_in_alive(ms_cpre, line@, j, ls) {
                        lemma_segment_absorbed(ms_cpre, matches@, line@, j, ls);
                    } else {
                        assert(lo <= j) by {
                            if !(lo <= j) {
                                // only the walked-without-a-run disjunct is
                                // left, and its anchor would lie past the line
                                let p = choose|p: int|
                                    0 <= p < ls && (
                                    #[trigger] colors[line@[j + p] as int]).spec_can_start_match();
                                assert(!(colors[line@[j + p] as int]).spec_can_start_match());
                            }
                        }
                        assert(run_c == line@.subrange(lo, i as int));
                        assert(run_c.len() >= ls && run_c.len() >= settings.spec_min_group());
                        let k = choose|k: int|
                            0 <= k < matches@.len() && matches@[k] is Some && forall|jj: int|
                                0 <= jj < run_c.len() ==> (
                                #[trigger] matches@[k]->0).spec_cells().contains(run_c[jj]);
                        assert forall|t: int|
                            0 <= t < ls implies (
                            #[trigger] (matches@[k]->0).spec_cells().contains(line@[j + t])) by {
                            assert(run_c[j + t - lo] == line@[j + t]);
                        }
                        assert(segment_in_alive(matches@, line@, j, ls));
                    }
                }
            }
        }
    } else {
        proof {
            if uniform {
                assert(false);
            }
            if hyp {
                assert forall|j: int|
                    #[trigger] live_segment(colors, line@, j, ls) implies segment_in_alive(
                    matches@,
                    line@,
                    j,
                    ls,
                ) by {
                    if !halted {
                        assert(i as int >= line@.len());
                        assert(j < i);
                        if !segment_in_alive(matches@, line@, j, ls) {
                            // the no-run disjunct needs a startable anchor in
                            // the walked stretch, which covers the segment
                            let p = choose|p: int|
                                0 <= p < ls && (
                                #[trigger] colors[line@[j + p] as int]).spec_can_start_match();
                            assert(!(colors[line@[j + p] as int]).spec_can_start_match());
                            assert(false);
                        }
                    }
                }
            }
        }
    }
}


/// What the matcher promises of every group it returns: the cell list is
/// strictly ascending (so free of duplicates), every index is on the board,
/// the group reaches both size minima, and its color may start a match.
pub open spec fn returned_group_ok<C: MatchColor>(
    g: BoardMatch<C>,
    ncells: int,
    s: LineMatcherSettings,
) -> bool {
    &&& strictly_sorted(g.spec_cells())
    &&& g.spec_cells().no_duplicates()
    &&& forall|k: int| 0 <= k < g.spec_cells().len() ==> g.spec_cells()[k] < ncells
    &&& g.spec_cells().len() >= s.line_size
    &&& g.spec_cells().len() >= s.spec_min_group()
    &&& g.spec_color().spec_can_start_match()
}

impl LineMatcherSettings {
    /// Finds every match group of the board: scans all lines for runs of at
    /// least `line_size` matching cells, merges runs with the alive groups
    /// they touch, and returns the final groups with their cell lists sorted
    /// and deduplicated.  Every returned group carries a color that occurs on
    /// the board and contains a full seed run of some line; on a board whose
    /// colors are well behaved, every cell of a group matches the group's
    /// color, no cell belongs to two groups, and the matcher is exhaustive:
    /// every live segment — wildcard stretches right before a startable cell
    /// included — lands whole inside one returned group.  With neighbour
    /// merging on over a symmetric neighbour list, no two returned groups of
    /// matching colors touch each other.  A board that holds a line which is
    /// uniformly matchable end to end is never reported matchless.
    pub fn find_matches<Gem: BoardGem>(
        &self,
        cells: &Vec<Gem>,
        lines: &Vec<Vec<usize>>,
        neighbours: &Vec<Vec<usize>>,
    ) -> (r: Vec<BoardMatch<Gem::Color>>)
        requires
            cells@.len() < usize::MAX / 2,
            lines_wf(lines@, cells@.len() as int),
            neighbours_wf(neighbours@, cells@.len() as int),
        ensures
            forall|g: int|
                0 <= g < r@.len() ==> returned_group_ok(
                    #[trigger] r@[g],
                    cells@.len() as int,
                    *self,
                ),
            (exists|li: int|
                0 <= li < lines@.len() && uniform_matchable_line(
                    cells@,
                    #[trigger] lines@[li]@,
                    *self,
                )) ==> r@.len() >= 1,
            colors_well_behaved(colors_of_gems(cells@)) ==> forall|g1: int, g2: int, ci: int|
                #![trigger r@[g1].spec_cells()[ci], r@[g2]]
                0 <= g1 < r@.len() && 0 <= g2 < r@.len() && g1 != g2 && 0 <= ci
                    < r@[g1].spec_cells().len() ==> !r@[g2].spec_cells().contains(
                    r@[g1].spec_cells()[ci],
                ),
            forall|g: int|
                0 <= g < r@.len() ==> color_on_board(
                    (#[trigger] r@[g]).spec_color(),
                    colors_of_gems(cells@),
                ),
            colors_well_behaved(colors_of_gems(cells@)) ==> forall|g: int|
                0 <= g < r@.len() ==> #[trigger] group_cells_match(r@[g], colors_of_gems(cells@)),
            forall|g: int|
                0 <= g < r@.len() ==> #[trigger] group_has_seed(
                    r@[g],
                    lines@,
                    self.line_size as int,
                ),
            // Exhaustiveness: on a well-behaved board, no live straight run
            // survives untouched — some cell of it is matched away.
            (colors_well_behaved(colors_of_gems(cells@)) && self.spec_min_group()
                <= self.line_size as int) ==> forall|li2: int, j: int|
                0 <= li2 < lines@.len() && #[trigger] live_run(
                    colors_of_gems(cells@),
                    lines@[li2]@,
                    j,
                    self.line_size as int,
                ) ==> (exists|g: int, t: int|
                    0 <= g < r@.len() && 0 <= t < self.line_size as int && (
                    #[trigger] r@[g].spec_cells().contains(lines@[li2]@[j + t]))),
            // Exhaustiveness in full: one returned group covers every live
            // segment whole — wildcard stretches right before a startable
            // cell included, which the scan captures by back-extension.
            (colors_well_behaved(colors_of_gems(cells@)) && self.spec_min_group()
                <= self.line_size as int) ==> forall|li2: int, j: int|
                0 <= li2 < lines@.len() && #[trigger] live_segment(
                    colors_of_gems(cells@),
                    lines@[li2]@,
                    j,
                    self.line_size as int,
                ) ==> (exists|g: int|
                    0 <= g < r@.len() && #[trigger] covers_segment(
                        r@[g],
                        lines@[li2]@,
                        j,
                        self.line_size as int,
                    )),
            // With neighbour merging on over a symmetric topology and
            // well-behaved colors, no two returned groups of matching colors
            // touch each other: the matcher has unified them.
            (self.merge_neighbours && neighbours_sym(neighbours@) && colors_well_behaved(
                colors_of_gems(cells@),
            )) ==> forall|g1: int, g2: int|
                #![trigger r@[g1], r@[g2]]
                0 <= g1 < r@.len() && 0 <= g2 < r@.len() && g1 != g2 && (
                r@[g1]).spec_color().spec_matches((r@[g2]).spec_color())
                    ==> !groups_adjacent(r@[g1], r@[g2], neighbours@),
    {
        let ghost ncells = cells@.len() as int;
        let ghost min = self.spec_min_keep();
        let ghost wb = colors_well_behaved(colors_of_gems(cells@));
        let ghost colors = colors_of_gems(cells@);
        let ghost ls2 = self.line_size as int;
        let ghost hyp2 = wb && self.spec_min_group() <= ls2;
        let ghost adjh2 = self.merge_neighbours && neighbours_sym(neighbours@) && wb;
        let mut matches: Vec<Option<BoardMatch<Gem::Color>>> = Vec::new();
        let mut match_board: Vec<Vec<usize>> = Vec::new();
        let mut c: usize = 0;
        while c < cells.len()
            invariant
                c <= cells.len(),
                match_board@.len() == c,
                forall|t: int| 0 <= t < c ==> (#[trigger] match_board@[t])@.len() == 0,
            decreases cells.len() - c,
        {
            match_board.push(Vec::new());
            c = c + 1;
        }

        let mut li: usize = 0;
        while li < lines.len()
            invariant
                li <= lines.len(),
                match_board@.len() == ncells,
                matches_wf(matches@, ncells, min),
                board_wf(match_board@, matches@.len() as int, ncells),
                board_complete(matches@, match_board@),
                groups_on_board(matches@, colors),
                seeds_wf(matches@, lines@, self.line_size as int),
                wb ==> cells_match_wf(matches@, colors) && disjoint_matching(matches@),
                hyp2 ==> forall|l: int, j: int|
                    0 <= l < li && #[trigger] live_segment(colors, lines@[l]@, j, ls2)
                        ==> segment_in_alive(matches@, lines@[l]@, j, ls2),
                adjh2 ==> no_adjacent_matching(matches@, neighbours@),
                (exists|l: int|
                    0 <= l < li && uniform_matchable_line(cells@, #[trigger] lines@[l]@, *self))
                    ==> exists_alive(matches@),
            decreases lines.len() - li,
        {
            let ghost pre = matches@;
            match_line(
                self,
                cells,
                neighbours,
                &lines[li],
                &mut matches,
                &mut match_board,
                Ghost(lines@),
                Ghost(li as int),
            );
            li = li + 1;
            proof {
                if hyp2 {
                    assert forall|l: int, j: int|
                        0 <= l < li && #[trigger] live_segment(colors, lines@[l]@, j, ls2) implies segment_in_alive(
                        matches@,
                        lines@[l]@,
                        j,
                        ls2,
                    ) by {
                        if l == li - 1 {
                            assert(lines@[l]@ == lines@[li - 1]@);
                        } else {
                            assert(segment_in_alive(pre, lines@[l]@, j, ls2));
                            lemma_segment_absorbed(pre, matches@, lines@[l]@, j, ls2);
                        }
                    }
                }
                if exists|l: int|
                    0 <= l < li && uniform_matchable_line(cells@, #[trigger] lines@[l]@, *self) {
                    let l = choose|l: int|
                        0 <= l < li && uniform_matchable_line(
                            cells@,
                            #[trigger] lines@[l]@,
                            *self,
                        );
                    if l == li - 1 {
                        assert(exists_alive(matches@));
                    } else {
                        assert(exists_alive(pre));
                    }
                }
            }
        }

        let ghost msnap = matches@;
        let mut out: Vec<BoardMatch<Gem::Color>> = Vec::new();
        let ghost mut srcs: Seq<int> = Seq::empty();
        let ghost mut srcs_pre: Seq<int> = Seq::empty();
        let mut k: usize = 0;
        while k < matches.len()
            invariant
                k <= matches.len(),
                matches@.len() == msnap.len(),
                forall|t: int| k <= t < msnap.len() ==> matches@[t] == msnap[t],
                forall|g: int|
                    0 <= g < out@.len() ==> returned_group_ok(#[trigger] out@[g], ncells, *self),
                (exists|t: int| 0 <= t < k && msnap[t] is Some) ==> out@.len() >= 1,
                srcs.len() == out@.len(),
                forall|g: int|
                    0 <= g < out@.len() ==> 0 <= #[trigger] srcs[g] < msnap.len()
                        && msnap[srcs[g]] is Some,
                forall|g1: int, g2: int|
                    0 <= g1 < g2 < out@.len() ==> #[trigger] srcs[g1] < #[trigger] srcs[g2],
                forall|g: int|
                    0 <= g < out@.len() ==> (#[trigger] out@[g]).spec_color() == (
                    msnap[srcs[g]]->0).spec_color(),
                forall|g: int|
                    0 <= g < out@.len() ==> (#[trigger] out@[g]).spec_cells().to_set() == (
                    msnap[srcs[g]]->0).spec_cells().to_set(),
                forall|g: int| 0 <= g < out@.len() ==> #[trigger] srcs[g] < k,
                forall|g: int|
                    0 <= g < out@.len() ==> color_on_board(
                        (#[trigger] out@[g]).spec_color(),
                        colors,
                    ),
                wb ==> forall|g: int|
                    0 <= g < out@.len() ==> #[trigger] group_cells_match(out@[g], colors),
                forall|g: int|
                    0 <= g < out@.len() ==> #[trigger] group_has_seed(
                        out@[g],
                        lines@,
                        self.line_size as int,
                    ),
                forall|k2: int|
                    0 <= k2 < k && msnap[k2] is Some ==> exists|g: int|
                        0 <= g < srcs.len() && #[trigger] srcs[g] == k2,
            decreases matches.len() - k,
        {
            let slot = &mut matches[k];
            let ghost mut pushed = false;
            let taken = slot.take();
            if let Some(mut g) = taken {
                proof {
                    assert(msnap[k as int] is Some);
                    assert(group_wf(g, ncells, min));
                }
                let ghost cells_pre = g.spec_cells();
                sort_dedup(g.cells_mut());
                proof {
                    g.spec_cells().unique_seq_to_set();
                    assert(g.spec_cells().len() == cells_pre.to_set().len());
                    assert forall|t: int|
                        0 <= t < g.spec_cells().len() implies g.spec_cells()[t] < ncells by {
                        assert(g.spec_cells().to_set().contains(g.spec_cells()[t]));
                        assert(cells_pre.to_set().contains(g.spec_cells()[t]));
                        assert(cells_pre.contains(g.spec_cells()[t]));
                        let w = choose|w: int|
                            0 <= w < cells_pre.len() && cells_pre[w] == g.spec_cells()[t];
                    }
                    assert(returned_group_ok(g, ncells, *self));
                    assert(color_on_board(g.spec_color(), colors));
                    assert(group_has_seed(g, lines@, self.line_size as int)) by {
                        let ls = self.line_size as int;
                        assert(group_has_seed(msnap[k as int]->0, lines@, ls));
                        let (li2, a) = choose|li2: int, a: int|
                            #[trigger] seed_at(msnap[k as int]->0, lines@, ls, li2, a);
                        assert forall|t: int|
                            0 <= t < ls implies #[trigger] g.spec_cells().contains(
                            lines@[li2]@[a + t],
                        ) by {
                            assert(cells_pre.contains(lines@[li2]@[a + t]));
                            assert(cells_pre.to_set().contains(lines@[li2]@[a + t]));
                            assert(g.spec_cells().to_set().contains(lines@[li2]@[a + t]));
                        }
                        assert(seed_at(g, lines@, ls, li2, a));
                    }
                    if wb {
                        assert(group_cells_match(msnap[k as int]->0, colors));
                        assert forall|t: int|
                            0 <= t < g.spec_cells().len() implies g.spec_color().spec_matches(
                            colors[#[trigger] g.spec_cells()[t] as int],
                        ) by {
                            assert(g.spec_cells().to_set().contains(g.spec_cells()[t]));
                            assert(cells_pre.to_set().contains(g.spec_cells()[t]));
                            assert(cells_pre.contains(g.spec_cells()[t]));
                            let w = choose|w: int|
                                0 <= w < cells_pre.len() && cells_pre[w] == g.spec_cells()[t];
                        }
                        assert(group_cells_match(g, colors));
                    }
                    srcs_pre = srcs;
                    srcs = srcs.push(k as int);
                    pushed = true;
                }
                out.push(g);
            }
            k = k + 1;
            proof {
                assert forall|k2: int|
                    0 <= k2 < k && msnap[k2] is Some implies exists|g2: int|
                        0 <= g2 < srcs.len() && #[trigger] srcs[g2] == k2 by {
                    if pushed {
                        lemma_push_index(srcs_pre, (k - 1) as int);
                        assert(srcs == srcs_pre.push((k - 1) as int));
                        if k2 == k - 1 {
                            assert(srcs[srcs.len() - 1] == k2);
                        } else {
                            let g2 = choose|g2: int|
                                0 <= g2 < srcs_pre.len() && #[trigger] srcs_pre[g2] == k2;
                            assert(srcs[g2] == k2);
                        }
                    } else {
                        assert(k2 < k - 1 || msnap[k2] is None);
                    }
                }
            }
        }
        proof {
            if hyp2 {
                assert forall|li2: int, j: int|
                    0 <= li2 < lines@.len() && #[trigger] live_segment(
                        colors,
                        lines@[li2]@,
                        j,
                        ls2,
                    ) implies (exists|g: int|
                    0 <= g < out@.len() && #[trigger] covers_segment(
                        out@[g],
                        lines@[li2]@,
                        j,
                        ls2,
                    )) by {
                    assert(segment_in_alive(msnap, lines@[li2]@, j, ls2));
                    let k2 = choose|k2: int|
                        0 <= k2 < msnap.len() && msnap[k2] is Some && forall|t: int|
                            0 <= t < ls2 ==> (#[trigger] (msnap[k2]->0).spec_cells().contains(
                                lines@[li2]@[j + t],
                            ));
                    let g = choose|g: int| 0 <= g < srcs.len() && #[trigger] srcs[g] == k2;
                    assert(out@[g].spec_cells().to_set() == (
                    msnap[srcs[g]]->0).spec_cells().to_set());
                    assert forall|t: int|
                        0 <= t < ls2 implies (#[trigger] out@[g].spec_cells().contains(
                        lines@[li2]@[j + t],
                    )) by {
                        let ccell = lines@[li2]@[j + t];
                        assert((msnap[k2]->0).spec_cells().contains(ccell));
                        assert((msnap[k2]->0).spec_cells().to_set().contains(ccell));
                        assert(out@[g].spec_cells().to_set().contains(ccell));
                    }
                    assert(covers_segment(out@[g], lines@[li2]@, j, ls2));
                    assert(0 <= g < out@.len() && covers_segment(out@[g], lines@[li2]@, j, ls2));
                }
                assert forall|li2: int, j: int|
                    0 <= li2 < lines@.len() && #[trigger] live_run(
                        colors,
                        lines@[li2]@,
                        j,
                        ls2,
                    ) implies (exists|g: int, t: int|
                    0 <= g < out@.len() && 0 <= t < ls2 && (
                    #[trigger] out@[g].spec_cells().contains(lines@[li2]@[j + t]))) by {
                    assert(line_wf(lines@[li2]@, ncells));
                    assert(colors.len() == ncells);
                    lemma_live_run_segment::<Gem::Color>(colors, lines@[li2]@, j, ls2);
                    assert(live_segment(colors, lines@[li2]@, j, ls2));
                    assert(segment_in_alive(msnap, lines@[li2]@, j, ls2));
                    let k2 = choose|k2: int|
                        0 <= k2 < msnap.len() && msnap[k2] is Some && forall|t: int|
                            0 <= t < ls2 ==> (#[trigger] (msnap[k2]->0).spec_cells().contains(
                                lines@[li2]@[j + t],
                            ));
                    let g = choose|g: int| 0 <= g < srcs.len() && #[trigger] srcs[g] == k2;
                    assert(out@[g].spec_cells().to_set() == (
                    msnap[srcs[g]]->0).spec_cells().to_set());
                    assert((msnap[k2]->0).spec_cells().contains(lines@[li2]@[j + 0]));
                    assert((msnap[k2]->0).spec_cells().to_set().contains(lines@[li2]@[j + 0]));
                    assert(out@[g].spec_cells().to_set().contains(lines@[li2]@[j + 0]));
                    assert(out@[g].spec_cells().contains(lines@[li2]@[j + 0]));
                }
            }
            if adjh2 {
                assert forall|g1: int, g2: int|
                    #![trigger out@[g1], out@[g2]]
                    0 <= g1 < out@.len() && 0 <= g2 < out@.len() && g1 != g2 && (
                    out@[g1]).spec_color().spec_matches(
                        (out@[g2]).spec_color(),
                    ) implies !groups_adjacent(out@[g1], out@[g2], neighbours@) by {
                    if groups_adjacent(out@[g1], out@[g2], neighbours@) {
                        let (a, u) = choose|a: int, u: int|
                            0 <= a < out@[g1].spec_cells().len() && 0 <= u < neighbours@[out@[g1].spec_cells()[a] as int]@.len()
                                && out@[g2].spec_cells().contains(
                                #[trigger] neighbours@[out@[g1].spec_cells()[a] as int]@[u],
                            );
                        let c1 = out@[g1].spec_cells()[a];
                        let d = neighbours@[c1 as int]@[u];
                        let k1 = srcs[g1];
                        let k2 = srcs[g2];
                        assert(k1 != k2) by {
                            if g1 < g2 {
                                assert(srcs[g1] < srcs[g2]);
                            } else {
                                assert(srcs[g2] < srcs[g1]);
                            }
                        }
                        assert(out@[g1].spec_cells().to_set().contains(c1));
                        assert((msnap[k1]->0).spec_cells().to_set().contains(c1));
                        assert((msnap[k1]->0).spec_cells().contains(c1));
                        let a2 = choose|a2: int|
                            0 <= a2 < (msnap[k1]->0).spec_cells().len() && (
                            msnap[k1]->0).spec_cells()[a2] == c1;
                        assert(out@[g2].spec_cells().to_set().contains(d));
                        assert((msnap[k2]->0).spec_cells().to_set().contains(d));
                        assert((msnap[k2]->0).spec_cells().contains(d));
                        assert(groups_adjacent(msnap[k1]->0, msnap[k2]->0, neighbours@)) by {
                            assert((msnap[k1]->0).spec_cells()[a2] == c1);
                            assert(neighbours@[(msnap[k1]->0).spec_cells()[a2] as int]@[u] == d);
                        }
                        assert(msnap[k1] is Some && msnap[k2] is Some);
                        assert(no_adjacent_matching(msnap, neighbours@));
                        assert(false);
                    }
                }
            }
            if wb {
                assert forall|g1: int, g2: int, ci: int|
                    #![trigger out@[g1].spec_cells()[ci], out@[g2]]
                    0 <= g1 < out@.len() && 0 <= g2 < out@.len() && g1 != g2 && 0 <= ci
                        < out@[g1].spec_cells().len() implies !out@[g2].spec_cells().contains(
                    out@[g1].spec_cells()[ci],
                ) by {
                    if out@[g2].spec_cells().contains(out@[g1].spec_cells()[ci]) {
                        let c = out@[g1].spec_cells()[ci];
                        let k1 = srcs[g1];
                        let k2 = srcs[g2];
                        assert(k1 != k2) by {
                            if g1 < g2 {
                                assert(srcs[g1] < srcs[g2]);
                            } else {
                                assert(srcs[g2] < srcs[g1]);
                            }
                        }
                        assert(out@[g1].spec_cells().to_set().contains(c));
                        assert((msnap[k1]->0).spec_cells().to_set().contains(c));
                        assert((msnap[k1]->0).spec_cells().contains(c));
                        assert(out@[g2].spec_cells().to_set().contains(c));
                        assert((msnap[k2]->0).spec_cells().to_set().contains(c));
                        assert((msnap[k2]->0).spec_cells().contains(c));
                        let w1 = choose|w1: int|
                            0 <= w1 < (msnap[k1]->0).spec_cells().len() && (
                            msnap[k1]->0).spec_cells()[w1] == c;
                        let color1 = (msnap[k1]->0).spec_color();
                        let color2 = (msnap[k2]->0).spec_color();
                        assert(cells_match_wf(msnap, colors));
                        assert(group_cells_match(msnap[k1]->0, colors));
                        assert(group_cells_match(msnap[k2]->0, colors));
                        assert(color1.spec_matches(colors[c as int]));
                        assert(color2.spec_matches(colors[c as int]));
                        Gem::Color::lemma_matches_commutative(color2, colors[c as int]);
                        assert(colors[c as int].spec_matches(color2));
                        assert(color_on_board(color1, colors) && color_on_board(color2, colors));
                        assert(color_on_board(colors[c as int], colors));
                        assert(color1.spec_matches(color2));
                        assert(disjoint_matching(msnap));
                        assert(groups_disjoint(msnap[k1]->0, msnap[k2]->0));
                        assert(!(msnap[k2]->0).spec_cells().contains(
                            (msnap[k1]->0).spec_cells()[w1],
                        ));
                    }
                }
            }
        }
        out
    }
}

} // verus!
