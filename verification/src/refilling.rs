//! Gravity refilling: computes the `Fall` and `FallIn` actions that compact a
//! board's gravity lanes after matched gems were removed.

use vstd::prelude::*;

use crate::{BoardGem, BoardMatch, MatchColor};

verus! {

/// Relies on `<[T]>::swap` (through `Vec`'s deref): exchanges the elements at
/// the two indices and leaves the rest of the vector unchanged.
#[verifier::external_body]
fn vec_swap<T>(v: &mut Vec<T>, i: usize, j: usize)
    requires
        i < old(v).len(),
        j < old(v).len(),
    ensures
        final(v)@ == old(v)@.update(i as int, old(v)@[j as int]).update(
            j as int,
            old(v)@[i as int],
        ),
{
    v.swap(i, j);
}

/// A color that additionally knows whether it stands for an empty cell, so
/// that the refiller can tell vacated cells from occupied ones.
pub trait RefillableGem: MatchColor {
    /// What `is_empty` returns.
    spec fn spec_is_empty(self) -> bool;

    /// Whether the color marks an empty (vacated) cell.
    fn is_empty(&self) -> (r: bool)
        ensures
            r == self.spec_is_empty(),
    ;
}

/// One refill step: either an existing gem falls down its lane, or a fresh
/// gem falls into a vacated cell at the top of the lane.
#[derive(Debug, Clone, Copy, PartialEq, Eq, Structural)]
pub enum GravityRefillAction {
    /// Move the gem at `from` down the lane to the vacant `to`;
    /// `height` is the distance in lane steps.
    Fall { from: usize, to: usize, height: usize },
    /// Cell `pos` needs a newly generated gem; `height` is the distance from
    /// the lane's top edge, an animation hint for the caller.
    FallIn { pos: usize, height: usize },
}

impl GravityRefillAction {
    /// The cell the action writes to.
    pub open spec fn spec_target(self) -> usize {
        match self {
            GravityRefillAction::Fall { to, .. } => to,
            GravityRefillAction::FallIn { pos, .. } => pos,
        }
    }

    /// The distance the action's gem falls.
    pub open spec fn spec_height(self) -> usize {
        match self {
            GravityRefillAction::Fall { height, .. } => height,
            GravityRefillAction::FallIn { height, .. } => height,
        }
    }

    /// The cell the action writes to.
    pub fn target(&self) -> (r: usize)
        ensures
            r == self.spec_target(),
    {
        match self {
            GravityRefillAction::Fall { to, .. } => *to,
            GravityRefillAction::FallIn { pos, .. } => *pos,
        }
    }

    /// The distance the action's gem falls.
    pub fn height(&self) -> (r: usize)
        ensures
            r == self.spec_height(),
    {
        match self {
            GravityRefillAction::Fall { height, .. } => *height,
            GravityRefillAction::FallIn { height, .. } => *height,
        }
    }

    /// Applies the action to the board: a `Fall` swaps the source and target
    /// cells (so the source becomes the vacated one), a `FallIn` writes the
    /// caller-supplied fresh gem into the target cell.
    pub fn apply<Gem: BoardGem>(&self, board: &mut Vec<Gem>, new_gem: Gem)
        requires
            match *self {
                GravityRefillAction::Fall { from, to, .. } => from < old(board).len() && to < old(
                    board,
                ).len(),
                GravityRefillAction::FallIn { pos, .. } => pos < old(board).len(),
            },
        ensures
            match *self {
                GravityRefillAction::Fall { from, to, .. } => final (board)@ == old(
                    board,
                )@.update(from as int, old(board)@[to as int]).update(
                    to as int,
                    old(board)@[from as int],
                ),
                GravityRefillAction::FallIn { pos, .. } => final (board)@ == old(board)@.update(
                    pos as int,
                    new_gem,
                ),
            },
    {
        match self {
            GravityRefillAction::Fall { from, to, .. } => vec_swap(board, *from, *to),
            GravityRefillAction::FallIn { pos, .. } => {
                board[*pos] = new_gem;
            },
        }
    }
}

/// Overwrites every cell claimed by any of the given match groups with the
/// empty gem; all other cells keep their value.
pub fn remove_matched<Gem: BoardGem + Copy>(
    board: &mut Vec<Gem>,
    matches: &Vec<BoardMatch<Gem::Color>>,
    empty_gem: Gem,
)
    requires
        forall|gi: int, ci: int|
            0 <= gi < matches@.len() && 0 <= ci < matches@[gi].spec_cells().len()
                ==> matches@[gi].spec_cells()[ci] < old(board).len(),
    ensures
        final (board)@.len() == old(board).len(),
        forall|c: int|
            0 <= c < old(board).len() ==> final (board)@[c] == if exists|gi: int|
                0 <= gi < matches@.len() && matches@[gi].spec_cells().contains(c as usize) {
                empty_gem
            } else {
                old(board)@[c]
            },
{
    let ghost board0 = old(board)@;
    let mut gi: usize = 0;
    while gi < matches.len()
        invariant
            gi <= matches.len(),
            board@.len() == board0.len(),
            forall|c: int|
                0 <= c < board0.len() ==> board@[c] == if exists|g: int|
                    0 <= g < gi && matches@[g].spec_cells().contains(c as usize) {
                    empty_gem
                } else {
                    board0[c]
                },
        decreases matches.len() - gi,
    {
        let group_cells = matches[gi].cells();
        let mut ci: usize = 0;
        while ci < group_cells.len()
            invariant
                ci <= group_cells.len(),
                group_cells@ == matches@[gi as int].spec_cells(),
                gi < matches.len(),
                board@.len() == board0.len(),
                forall|c: int|
                    0 <= c < board0.len() ==> board@[c] == if (exists|g: int|
                        0 <= g < gi && matches@[g].spec_cells().contains(c as usize)) || (
                    exists|k: int|
                        0 <= k < ci && matches@[gi as int].spec_cells()[k] == c as usize) {
                        empty_gem
                    } else {
                        board0[c]
                    },
            decreases group_cells.len() - ci,
        {
            let c = group_cells[ci];
            board[c] = empty_gem;
            ci = ci + 1;
        }
        gi = gi + 1;
        proof {
            assert forall|c: int| 0 <= c < board0.len() implies board@[c] == if exists|g: int|
                0 <= g < gi && matches@[g].spec_cells().contains(c as usize) {
                empty_gem
            } else {
                board0[c]
            } by {
                if exists|g: int|
                    0 <= g < gi && matches@[g].spec_cells().contains(c as usize) {
                    let g = choose|g: int|
                        0 <= g < gi && matches@[g].spec_cells().contains(c as usize);
                    if g == gi - 1 {
                        let k = choose|k: int|
                            0 <= k < matches@[g].spec_cells().len() && matches@[g].spec_cells()[k]
                                == c as usize;
                        assert(board@[c] == empty_gem);
                    }
                }
            }
        }
    }
}

/// How many of the actions are `FallIn` actions.
pub open spec fn count_fall_ins(s: Seq<GravityRefillAction>) -> int
    decreases s.len(),
{
    if s.len() == 0 {
        0
    } else {
        count_fall_ins(s.drop_last()) + if s.last() is FallIn {
            1int
        } else {
            0int
        }
    }
}

proof fn lemma_count_fall_ins_add(a: Seq<GravityRefillAction>, b: Seq<GravityRefillAction>)
    ensures
        count_fall_ins(a + b) == count_fall_ins(a) + count_fall_ins(b),
    decreases b.len(),
{
    if b.len() == 0 {
        assert(a + b =~= a);
    } else {
        lemma_count_fall_ins_add(a, b.drop_last());
        assert((a + b).drop_last() =~= a + b.drop_last());
    }
}

proof fn lemma_lane_falls_no_fall_ins<C: RefillableGem>(colors: Seq<C>, lane: Seq<usize>, i: int)
    ensures
        count_fall_ins(lane_falls(colors, lane, i)) == 0,
    decreases lane.len() - i,
{
    if 0 <= i < lane.len() {
        lemma_lane_falls_no_fall_ins(colors, lane, i + 1);
        let d = empties_below(colors, lane, i);
        if !colors[lane[i] as int].spec_is_empty() && d > 0 {
            let f = seq![
                GravityRefillAction::Fall { from: lane[i], to: lane[i + d], height: d as usize },
            ];
            assert(lane_falls(colors, lane, i) == lane_falls(colors, lane, i + 1) + f);
            lemma_count_fall_ins_add(lane_falls(colors, lane, i + 1), f);
            assert(f.drop_last() =~= Seq::<GravityRefillAction>::empty());
            assert(count_fall_ins(f.drop_last()) == 0);
            assert(!(f.last() is FallIn));
            assert(count_fall_ins(f) == 0);
        } else {
            assert(lane_falls(colors, lane, i) =~= lane_falls(colors, lane, i + 1));
        }
    }
}

proof fn lemma_count_all_fall_ins(s: Seq<GravityRefillAction>)
    requires
        forall|k: int| 0 <= k < s.len() ==> s[k] is FallIn,
    ensures
        count_fall_ins(s) == s.len(),
    decreases s.len(),
{
    if s.len() > 0 {
        lemma_count_all_fall_ins(s.drop_last());
    }
}

/// Refill conservation: for every lane, the refiller schedules exactly one
/// `FallIn` action per empty cell of that lane, no more and no fewer.
pub proof fn lemma_refill_lane_conservation<C: RefillableGem>(colors: Seq<C>, lane: Seq<usize>)
    ensures
        count_fall_ins(spec_refill_lane(colors, lane)) == count_empty(colors, lane),
{
    lemma_count_empty_bound(colors, lane, 0);
    lemma_lane_falls_no_fall_ins(colors, lane, 0);
    lemma_count_fall_ins_add(lane_falls(colors, lane, 0), lane_fall_ins(colors, lane));
    lemma_count_all_fall_ins(lane_fall_ins(colors, lane));
}


/// The colors after one refill action is applied to a board of colors: a
/// `Fall` swaps its two cells, a `FallIn` writes the fresh color.
pub open spec fn apply_action_colors<C: RefillableGem>(
    colors: Seq<C>,
    a: GravityRefillAction,
    fresh: C,
) -> Seq<C> {
    match a {
        GravityRefillAction::Fall { from, to, .. } => colors.update(
            from as int,
            colors[to as int],
        ).update(to as int, colors[from as int]),
        GravityRefillAction::FallIn { pos, .. } => colors.update(pos as int, fresh),
    }
}

/// The colors after a whole list of refill actions is applied in order.
pub open spec fn apply_actions_colors<C: RefillableGem>(
    colors: Seq<C>,
    s: Seq<GravityRefillAction>,
    fresh: C,
) -> Seq<C>
    decreases s.len(),
{
    if s.len() == 0 {
        colors
    } else {
        apply_actions_colors(apply_action_colors(colors, s[0], fresh), s.drop_first(), fresh)
    }
}

proof fn lemma_apply_actions_concat<C: RefillableGem>(
    colors: Seq<C>,
    a: Seq<GravityRefillAction>,
    b: Seq<GravityRefillAction>,
    fresh: C,
)
    ensures
        apply_actions_colors(colors, a + b, fresh) == apply_actions_colors(
            apply_actions_colors(colors, a, fresh),
            b,
            fresh,
        ),
    decreases a.len(),
{
    if a.len() == 0 {
        assert(a + b =~= b);
    } else {
        assert((a + b)[0] == a[0]);
        assert((a + b).drop_first() =~= a.drop_first() + b);
        lemma_apply_actions_concat(
            apply_action_colors(colors, a[0], fresh),
            a.drop_first(),
            b,
            fresh,
        );
    }
}

/// Applying the falls of lane positions `i` and beyond compacts that part of
/// the lane: afterwards exactly its topmost cells are empty, as many as the
/// part had empty cells, and nothing outside that part changes.
proof fn lemma_falls_compact<C: RefillableGem>(colors: Seq<C>, lane: Seq<usize>, i: int, fresh: C)
    requires
        lane_in_range(lane, colors.len() as int),
        lane.no_duplicates(),
        0 <= i <= lane.len(),
    ensures
        ({
            let out = apply_actions_colors(colors, lane_falls(colors, lane, i), fresh);
            &&& out.len() == colors.len()
            &&& forall|j: int|
                i <= j < lane.len() ==> (out[lane[j] as int].spec_is_empty() <==> j <= i - 1
                    + count_empty_from(colors, lane, i))
            &&& forall|p: int|
                0 <= p < colors.len() && !lane.subrange(i, lane.len() as int).contains(
                    p as usize,
                ) ==> out[p] == colors[p]
        }),
    decreases lane.len() - i,
{
    lemma_count_empty_bound(colors, lane, i);
    if i == lane.len() {
    } else {
        lemma_falls_compact(colors, lane, i + 1, fresh);
        lemma_count_empty_bound(colors, lane, i + 1);
        let out1 = apply_actions_colors(colors, lane_falls(colors, lane, i + 1), fresh);
        let d = empties_below(colors, lane, i);
        assert forall|j: int| i + 1 <= j < lane.len() implies !lane.subrange(
            i + 1,
            lane.len() as int,
        ).contains(lane[i]) && lane.subrange(i + 1, lane.len() as int).contains(lane[j]) by {
            assert(lane.subrange(i + 1, lane.len() as int)[j - (i + 1)] == lane[j]);
            if lane.subrange(i + 1, lane.len() as int).contains(lane[i]) {
                let k = choose|k: int|
                    0 <= k < lane.len() - (i + 1) && #[trigger] lane.subrange(
                        i + 1,
                        lane.len() as int,
                    )[k] == lane[i];
                assert(lane[i + 1 + k] == lane[i]);
            }
        }
        assert forall|j: int| 0 <= j <= i implies !lane.subrange(
            i + 1,
            lane.len() as int,
        ).contains(lane[j]) by {
            if lane.subrange(i + 1, lane.len() as int).contains(lane[j]) {
                let k = choose|k: int|
                    0 <= k < lane.len() - (i + 1) && #[trigger] lane.subrange(
                        i + 1,
                        lane.len() as int,
                    )[k] == lane[j];
                assert(lane[i + 1 + k] == lane[j]);
            }
        }
        assert forall|p: usize|
            lane.subrange(i + 1, lane.len() as int).contains(p) implies lane.subrange(
            i,
            lane.len() as int,
        ).contains(p) by {
            let k = choose|k: int|
                0 <= k < lane.len() - (i + 1) && #[trigger] lane.subrange(
                    i + 1,
                    lane.len() as int,
                )[k] == p;
            assert(lane.subrange(i, lane.len() as int)[k + 1] == p);
        }
        assert forall|j: int| i <= j < lane.len() implies lane.subrange(
            i,
            lane.len() as int,
        ).contains(lane[j]) by {
            assert(lane.subrange(i, lane.len() as int)[j - i] == lane[j]);
        }
        if colors[lane[i] as int].spec_is_empty() {
            assert(lane_falls(colors, lane, i) =~= lane_falls(colors, lane, i + 1));
        } else if d > 0 {
            let f = GravityRefillAction::Fall {
                from: lane[i],
                to: lane[i + d],
                height: d as usize,
            };
            assert(lane_falls(colors, lane, i) == lane_falls(colors, lane, i + 1) + seq![f]);
            lemma_apply_actions_concat(colors, lane_falls(colors, lane, i + 1), seq![f], fresh);
            let out = apply_actions_colors(out1, seq![f], fresh);
            assert(seq![f].drop_first() =~= Seq::<GravityRefillAction>::empty());
            assert(out == apply_actions_colors(
                apply_action_colors(out1, seq![f][0], fresh),
                seq![f].drop_first(),
                fresh,
            ));
            assert(seq![f][0] == f);
            assert(apply_actions_colors(
                apply_action_colors(out1, f, fresh),
                seq![f].drop_first(),
                fresh,
            ) == apply_action_colors(out1, f, fresh));
            assert(out == apply_action_colors(out1, f, fresh));
            assert(out1[lane[i] as int] == colors[lane[i] as int]);
            assert(i + 1 <= i + d < lane.len());
            assert(out1[lane[i + d] as int].spec_is_empty());
            assert(lane[i] != lane[i + d]);
            assert forall|j: int|
                i <= j < lane.len() implies (out[lane[j] as int].spec_is_empty() <==> j <= i - 1
                    + count_empty_from(colors, lane, i)) by {
                if j == i {
                    assert(out[lane[i] as int] == out1[lane[i + d] as int]);
                } else if j == i + d {
                    assert(out[lane[j] as int] == out1[lane[i] as int]);
                } else {
                    assert(out[lane[j] as int] == out1[lane[j] as int]);
                }
            }
        } else {
            assert(lane_falls(colors, lane, i) =~= lane_falls(colors, lane, i + 1));
            assert(count_empty_from(colors, lane, i) == 0);
        }
    }
}

proof fn lemma_apply_fall_ins<C: RefillableGem>(
    st: Seq<C>,
    s: Seq<GravityRefillAction>,
    fresh: C,
)
    requires
        forall|k: int| 0 <= k < s.len() ==> s[k] is FallIn,
        forall|k: int| 0 <= k < s.len() ==> (#[trigger] s[k]).spec_target() < st.len(),
    ensures
        ({
            let out = apply_actions_colors(st, s, fresh);
            &&& out.len() == st.len()
            &&& forall|p: int|
                0 <= p < st.len() ==> out[p] == if exists|k: int|
                    0 <= k < s.len() && (#[trigger] s[k]).spec_target() == p {
                    fresh
                } else {
                    st[p]
                }
        }),
    decreases s.len(),
{
    if s.len() > 0 {
        let st1 = apply_action_colors(st, s[0], fresh);
        lemma_apply_fall_ins(st1, s.drop_first(), fresh);
        let out = apply_actions_colors(st, s, fresh);
        assert forall|p: int| 0 <= p < st.len() implies out[p] == (if exists|k: int|
            0 <= k < s.len() && (#[trigger] s[k]).spec_target() == p {
            fresh
        } else {
            st[p]
        }) by {
            if exists|k: int| 0 <= k < s.len() && (#[trigger] s[k]).spec_target() == p {
                let k = choose|k: int|
                    0 <= k < s.len() && (#[trigger] s[k]).spec_target() == p;
                if k == 0 {
                    if exists|k2: int|
                        0 <= k2 < s.drop_first().len() && (
                        #[trigger] s.drop_first()[k2]).spec_target() == p {
                        assert(out[p] == fresh);
                    } else {
                        assert(st1[p] == fresh);
                    }
                } else {
                    assert(s.drop_first()[k - 1].spec_target() == p);
                    assert(out[p] == fresh);
                }
            } else {
                assert(s[0].spec_target() != p);
                assert(st1[p] == st[p]);
                assert forall|k2: int|
                    0 <= k2 < s.drop_first().len() implies (
                #[trigger] s.drop_first()[k2]).spec_target() != p by {
                    assert(s.drop_first()[k2] == s[k2 + 1]);
                }
            }
        }
    }
}

/// Refill leaves the lane fully settled: applying all of a lane's actions in
/// order — each `Fall` as a swap, each `FallIn` writing a fresh, non-empty
/// color — leaves no empty cell anywhere in the lane, and in particular none
/// below the fall-in region at the lane's top.
pub proof fn lemma_refill_lane_settles<C: RefillableGem>(
    colors: Seq<C>,
    lane: Seq<usize>,
    fresh: C,
)
    requires
        lane_in_range(lane, colors.len() as int),
        lane.no_duplicates(),
        !fresh.spec_is_empty(),
    ensures
        ({
            let out = apply_actions_colors(colors, spec_refill_lane(colors, lane), fresh);
            &&& out.len() == colors.len()
            &&& forall|j: int|
                0 <= j < lane.len() ==> !out[lane[j] as int].spec_is_empty()
        }),
{
    let m = count_empty(colors, lane);
    lemma_count_empty_bound(colors, lane, 0);
    lemma_falls_compact(colors, lane, 0, fresh);
    let falls = lane_falls(colors, lane, 0);
    let fall_ins = lane_fall_ins(colors, lane);
    let st = apply_actions_colors(colors, falls, fresh);
    lemma_apply_actions_concat(colors, falls, fall_ins, fresh);
    lemma_apply_fall_ins(st, fall_ins, fresh);
    let out = apply_actions_colors(colors, spec_refill_lane(colors, lane), fresh);
    assert forall|j: int| 0 <= j < lane.len() implies !out[lane[j] as int].spec_is_empty() by {
        if j < m {
            assert(fall_ins[j].spec_target() == lane[j]);
            assert(out[lane[j] as int] == fresh);
        } else {
            assert(!st[lane[j] as int].spec_is_empty());
            if exists|k: int|
                0 <= k < fall_ins.len() && (#[trigger] fall_ins[k]).spec_target() == lane[j] {
                let k = choose|k: int|
                    0 <= k < fall_ins.len() && (#[trigger] fall_ins[k]).spec_target() == lane[j];
                assert(lane[k] == lane[j]);
                assert(false);
            }
            assert(out[lane[j] as int] == st[lane[j] as int]);
        }
    }
}

/// The colors of a board, cell by cell.
pub open spec fn colors_of<Gem: BoardGem>(board: Seq<Gem>) -> Seq<Gem::Color> {
    board.map_values(|g: Gem| g.spec_color())
}

/// How many cells of `lane` at positions `i` and beyond hold an empty color.
pub open spec fn count_empty_from<C: RefillableGem>(
    colors: Seq<C>,
    lane: Seq<usize>,
    i: int,
) -> int
    decreases lane.len() - i,
{
    if i < 0 || i >= lane.len() {
        0
    } else {
        (if colors[lane[i] as int].spec_is_empty() {
            1int
        } else {
            0int
        }) + count_empty_from(colors, lane, i + 1)
    }
}

/// How many cells of the whole lane are empty.
pub open spec fn count_empty<C: RefillableGem>(colors: Seq<C>, lane: Seq<usize>) -> int {
    count_empty_from(colors, lane, 0)
}

/// The number of empty cells strictly below lane position `i`.
pub open spec fn empties_below<C: RefillableGem>(colors: Seq<C>, lane: Seq<usize>, i: int) -> int {
    count_empty_from(colors, lane, i + 1)
}

/// The `Fall` actions for lane positions `i` and beyond, in the order they
/// are produced: bottom of the lane first.  A non-empty cell with at least
/// one empty cell below it falls by exactly that many steps.
pub open spec fn lane_falls<C: RefillableGem>(
    colors: Seq<C>,
    lane: Seq<usize>,
    i: int,
) -> Seq<GravityRefillAction>
    decreases lane.len() - i,
{
    if i < 0 || i >= lane.len() {
        Seq::empty()
    } else {
        let d = empties_below(colors, lane, i);
        lane_falls(colors, lane, i + 1) + if !colors[lane[i] as int].spec_is_empty() && d > 0 {
            seq![
                GravityRefillAction::Fall {
                    from: lane[i],
                    to: lane[i + d],
                    height: d as usize,
                },
            ]
        } else {
            Seq::empty()
        }
    }
}

/// The `FallIn` actions of a lane: one for each empty cell in the lane,
/// placed at the topmost lane positions, each carrying the size of that
/// vacated run as its height.
pub open spec fn lane_fall_ins<C: RefillableGem>(
    colors: Seq<C>,
    lane: Seq<usize>,
) -> Seq<GravityRefillAction> {
    let m = count_empty(colors, lane);
    Seq::new(
        m as nat,
        |j: int| GravityRefillAction::FallIn { pos: lane[j], height: m as usize },
    )
}

/// Everything the refiller produces for one lane: all falls, bottom first,
/// then the fall-ins for the vacated run at the top.
pub open spec fn spec_refill_lane<C: RefillableGem>(
    colors: Seq<C>,
    lane: Seq<usize>,
) -> Seq<GravityRefillAction> {
    lane_falls(colors, lane, 0) + lane_fall_ins(colors, lane)
}

/// The refiller's output over the first `k` lanes, lane by lane.
pub open spec fn spec_refill<C: RefillableGem>(
    colors: Seq<C>,
    lanes: Seq<Seq<usize>>,
    k: int,
) -> Seq<GravityRefillAction>
    decreases k,
{
    if k <= 0 {
        Seq::empty()
    } else {
        spec_refill(colors, lanes, k - 1) + spec_refill_lane(colors, lanes[k - 1])
    }
}

/// All indices of `lane` address a cell of a board of size `n`.
pub open spec fn lane_in_range(lane: Seq<usize>, n: int) -> bool {
    forall|j: int| 0 <= j < lane.len() ==> lane[j] < n
}

proof fn lemma_count_empty_bound<C: RefillableGem>(colors: Seq<C>, lane: Seq<usize>, i: int)
    ensures
        count_empty_from(colors, lane, i) <= lane.len() - i || count_empty_from(colors, lane, i)
            == 0,
        0 <= count_empty_from(colors, lane, i),
    decreases lane.len() - i,
{
    if 0 <= i < lane.len() {
        lemma_count_empty_bound(colors, lane, i + 1);
    }
}

/// Computes the refill actions of a single gravity lane, scanned from its
/// bottom cell up.
fn refill_lane<Gem: BoardGem>(board: &Vec<Gem>, lane: &Vec<usize>) -> (r: Vec<
    GravityRefillAction,
>) where Gem::Color: RefillableGem
    requires
        lane_in_range(lane@, board@.len() as int),
    ensures
        r@ == spec_refill_lane(colors_of(board@), lane@),
{
    let ghost colors = colors_of(board@);
    let mut acts: Vec<GravityRefillAction> = Vec::new();
    let mut last_empty: Option<usize> = None;
    let mut i: usize = lane.len();
    proof {
        lemma_count_empty_bound(colors, lane@, i as int);
    }
    while i > 0
        invariant
            i <= lane.len(),
            lane_in_range(lane@, board@.len() as int),
            colors == colors_of(board@),
            acts@ == lane_falls(colors, lane@, i as int),
            count_empty_from(colors, lane@, i as int) == 0 <==> last_empty is None,
            last_empty is Some ==> last_empty->0 == i - 1 + count_empty_from(
                colors,
                lane@,
                i as int,
            ),
            last_empty is Some ==> last_empty->0 < lane.len(),
        decreases i,
    {
        i = i - 1;
        proof {
            lemma_count_empty_bound(colors, lane@, i as int);
            lemma_count_empty_bound(colors, lane@, i + 1);
        }
        let pos = lane[i];
        if board[pos].color().is_empty() {
            if last_empty.is_none() {
                last_empty = Some(i);
            }
        } else {
            if let Some(e) = last_empty {
                acts.push(
                    GravityRefillAction::Fall { from: pos, to: lane[e], height: e - i },
                );
                last_empty = Some(e - 1);
            }
        }
    }
    proof {
        lemma_count_empty_bound(colors, lane@, 0);
    }
    if let Some(e) = last_empty {
        let height = e + 1;
        let ghost fall_ins = lane_fall_ins(colors, lane@);
        let mut j: usize = 0;
        while j <= e
            invariant
                j <= e + 1,
                e < lane.len(),
                e + 1 == count_empty(colors, lane@),
                lane_in_range(lane@, board@.len() as int),
                colors == colors_of(board@),
                fall_ins == lane_fall_ins(colors, lane@),
                acts@ == lane_falls(colors, lane@, 0) + fall_ins.subrange(0, j as int),
            decreases e + 1 - j,
        {
            acts.push(GravityRefillAction::FallIn { pos: lane[j], height });
            proof {
                let a = lane_falls(colors, lane@, 0);
                assert(fall_ins[j as int] == GravityRefillAction::FallIn {
                    pos: lane@[j as int],
                    height: (e + 1) as usize,
                });
                assert(acts@ == (a + fall_ins.subrange(0, j as int)).push(fall_ins[j as int]));
                assert(fall_ins.subrange(0, j + 1) =~= fall_ins.subrange(0, j as int).push(
                    fall_ins[j as int],
                ));
                assert((a + fall_ins.subrange(0, j as int)).push(fall_ins[j as int]) =~= a
                    + fall_ins.subrange(0, j as int).push(fall_ins[j as int]));
                assert(acts@ == a + fall_ins.subrange(0, j + 1));
            }
            j = j + 1;
        }
        proof {
            assert(fall_ins.subrange(0, (e + 1) as int) =~= fall_ins);
            assert(acts@ =~= spec_refill_lane(colors, lane@));
        }
    } else {
        proof {
            assert(acts@ =~= spec_refill_lane(colors, lane@));
        }
    }
    acts
}

/// The gravity refiller.
pub struct GravityRefill;

impl GravityRefill {
    /// Computes, lane by lane, the actions that compact every gravity lane:
    /// each remaining gem falls past the empty cells below it, and the
    /// vacated run at the top of each lane is scheduled for fresh gems.
    pub fn refill<Gem: BoardGem>(board: &Vec<Gem>, gravity_lines: &Vec<Vec<usize>>) -> (r: Vec<
        GravityRefillAction,
    >) where Gem::Color: RefillableGem
        requires
            forall|li: int|
                0 <= li < gravity_lines@.len() ==> lane_in_range(
                    gravity_lines@[li]@,
                    board@.len() as int,
                ),
        ensures
            r@ == spec_refill(
                colors_of(board@),
                gravity_lines@.map_values(|l: Vec<usize>| l@),
                gravity_lines@.len() as int,
            ),
    {
        let ghost colors = colors_of(board@);
        let ghost lanes = gravity_lines@.map_values(|l: Vec<usize>| l@);
        let mut acts: Vec<GravityRefillAction> = Vec::new();
        let mut li: usize = 0;
        while li < gravity_lines.len()
            invariant
                li <= gravity_lines.len(),
                colors == colors_of(board@),
                lanes == gravity_lines@.map_values(|l: Vec<usize>| l@),
                forall|k: int|
                    0 <= k < gravity_lines@.len() ==> lane_in_range(
                        gravity_lines@[k]@,
                        board@.len() as int,
                    ),
                acts@ == spec_refill(colors, lanes, li as int),
            decreases gravity_lines.len() - li,
        {
            let mut lane_acts = refill_lane(board, &gravity_lines[li]);
            acts.append(&mut lane_acts);
            li = li + 1;
        }
        acts
    }
}

} // verus!
