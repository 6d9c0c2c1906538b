use vstd::prelude::*;
use crate::model::{Year, TimelineBlock, Timeline};
use crate::placement_laws::sides_alternate;

verus! {

/// Which side of the axis a block's card is drawn on.
#[derive(Clone, Copy, Debug, PartialEq, Eq, Structural)]
pub enum Side {
    Left,
    Right,
}

/// Block `i` comes before block `j` in chronological order: by start year in
/// the total order of `f32::total_cmp`, ties kept in list order (a stable
/// sort).
pub open spec fn before(blocks: Seq<TimelineBlock>, i: int, j: int) -> bool {
    ||| blocks[i].start_year.key() < blocks[j].start_year.key()
    ||| (blocks[i].start_year.key() == blocks[j].start_year.key() && i < j)
}

/// Index `i` occurs in `order`.
pub open spec fn occurs(order: Seq<usize>, i: int) -> bool {
    exists|k: int| 0 <= k < order.len() && order[k] == i
}

/// `order` lists every block index once, in chronological order.
pub open spec fn is_stable_order(blocks: Seq<TimelineBlock>, order: Seq<usize>) -> bool {
    &&& order.len() == blocks.len()
    &&& forall|k: int| 0 <= k < order.len() ==> #[trigger] order[k] < blocks.len()
    &&& forall|i: int| 0 <= i < blocks.len() ==> #[trigger] occurs(order, i)
    &&& forall|k1: int, k2: int|
        0 <= k1 < k2 < order.len() ==> before(blocks, #[trigger] order[k1] as int, #[trigger] order[k2] as int)
}

/// The side of the block at position `rank` of the chronological order:
/// sides alternate, starting on the right.
pub open spec fn side_of_rank(rank: int) -> Side {
    if rank % 2 == 0 {
        Side::Right
    } else {
        Side::Left
    }
}

/// The first lane, from lane `d` outwards, whose last block ends no later
/// than `start` (by `f32` `>=`); one past the last lane when none does.
pub open spec fn first_fit_from(ends: Seq<Year>, start: Year, d: int) -> int
    decreases ends.len() - d,
{
    if d >= ends.len() {
        ends.len() as int
    } else if start.spec_ge(ends[d]) {
        d
    } else {
        first_fit_from(ends, start, d + 1)
    }
}

/// The lane ends after a block ending at `end` is placed in lane `d`.
pub open spec fn place_in(ends: Seq<Year>, d: int, end: Year) -> Seq<Year> {
    if d < ends.len() {
        ends.update(d, end)
    } else {
        ends.push(end)
    }
}

/// The right lane ends, the left lane ends and the placement after the
/// first `k` blocks of `order` have been placed, each in the first lane of
/// its side that it fits in.
pub open spec fn greedy(blocks: Seq<TimelineBlock>, order: Seq<usize>, k: nat) -> (
    Seq<Year>,
    Seq<Year>,
    Seq<(Side, usize)>,
)
    decreases k,
{
    if k == 0 {
        (seq![], seq![], Seq::new(blocks.len(), |i: int| (Side::Right, 0usize)))
    } else {
        let prev = greedy(blocks, order, (k - 1) as nat);
        let r = k - 1;
        let idx = order[r] as int;
        let b = blocks[idx];
        if side_of_rank(r) == Side::Right {
            let d = first_fit_from(prev.0, b.start_year, 0);
            (place_in(prev.0, d, b.end_year), prev.1, prev.2.update(idx, (Side::Right, d as usize)))
        } else {
            let d = first_fit_from(prev.1, b.start_year, 0);
            (prev.0, place_in(prev.1, d, b.end_year), prev.2.update(idx, (Side::Left, d as usize)))
        }
    }
}

/// The placement of every block once all have been placed in `order`.
pub open spec fn greedy_placement(blocks: Seq<TimelineBlock>, order: Seq<usize>) -> Seq<(Side, usize)> {
    greedy(blocks, order, blocks.len()).2
}

/// The block indices in chronological order (a stable sort by start year).
fn stable_order(blocks: &Vec<TimelineBlock>) -> (order: Vec<usize>)
    ensures
        is_stable_order(blocks@, order@),
{
    let n = blocks.len();
    let mut order: Vec<usize> = Vec::new();
    let mut i: usize = 0;
    while i < n
        invariant
            n == blocks.len(),
            i <= n,
            order.len() == i,
            forall|k: int| 0 <= k < i ==> #[trigger] order@[k] < i,
            forall|j: int| 0 <= j < i ==> #[trigger] occurs(order@, j),
            forall|k1: int, k2: int|
                0 <= k1 < k2 < i ==> before(blocks@, #[trigger] order@[k1] as int, #[trigger] order@[k2] as int),
        decreases n - i,
    {
        let key = blocks[i].start_year.total_key();
        let mut p: usize = 0;
        while p < order.len() && blocks[order[p]].start_year.total_key() <= key
            invariant
                n == blocks.len(),
                i < n,
                order.len() == i,
                p <= order.len(),
                key == blocks@[i as int].start_year.key(),
                forall|k: int| 0 <= k < i ==> #[trigger] order@[k] < i,
                forall|k: int| 0 <= k < p ==> blocks@[#[trigger] order@[k] as int].start_year.key() <= key,
            decreases order.len() - p,
        {
            p = p + 1;
        }
        let ghost old_order = order@;
        assert forall|k: int| p <= k < i implies blocks@[#[trigger] old_order[k] as int].start_year.key() > key by {
            if k > p {
                assert(before(blocks@, old_order[p as int] as int, old_order[k] as int));
            }
        }
        order.insert(p, i);
        assert forall|j: int| 0 <= j <= i implies #[trigger] occurs(order@, j) by {
            if j == i {
                assert(order@[p as int] == j);
            } else {
                assert(occurs(old_order, j));
                let k0 = choose|k: int| 0 <= k < old_order.len() && old_order[k] == j;
                if k0 < p {
                    assert(order@[k0] == j);
                } else {
                    assert(order@[k0 + 1] == j);
                }
            }
        }
        assert forall|k1: int, k2: int| 0 <= k1 < k2 < i + 1 implies before(
            blocks@,
            #[trigger] order@[k1] as int,
            #[trigger] order@[k2] as int,
        ) by {
            if k1 < p && k2 < p {
                assert(before(blocks@, old_order[k1] as int, old_order[k2] as int));
            } else if k1 < p && k2 == p {
            } else if k1 < p {
                assert(before(blocks@, old_order[k1] as int, old_order[k2 - 1] as int));
            } else if k1 == p {
                assert(blocks@[old_order[k2 - 1] as int].start_year.key() > key);
            } else {
                assert(before(blocks@, old_order[k1 - 1] as int, old_order[k2 - 1] as int));
            }
        }
        i = i + 1;
    }
    order
}

/// Puts a block from `start` to `end` in the first lane whose last block
/// ends no later than `start`, opening a new lane when there is none, and
/// returns the lane.
fn place_first_fit(ends: &mut Vec<Year>, start: Year, end: Year) -> (d: usize)
    ensures
        d == first_fit_from(old(ends)@, start, 0),
        d <= old(ends)@.len(),
        final(ends)@ == place_in(old(ends)@, d as int, end),
{
    let mut d: usize = 0;
    while d < ends.len()
        invariant
            ends@ == old(ends)@,
            d <= ends.len(),
            first_fit_from(ends@, start, d as int) == first_fit_from(ends@, start, 0),
        decreases ends.len() - d,
    {
        if start.ge(&ends[d]) {
            ends.set(d, end);
            return d;
        }
        d = d + 1;
    }
    ends.push(end);
    d
}

/// For each block: which side of the axis it is drawn on, and how many
/// lanes out from the axis (0 = closest).
///
/// Sides alternate in chronological order, starting on the right. Each
/// block goes into the first lane of its side whose last block ends no
/// later than it starts, or into a new lane beyond the others.
pub fn assign_placement(timeline: &Timeline) -> (placement: Vec<(Side, usize)>)
    ensures
        placement@.len() == timeline.blocks@.len(),
        forall|i: int| 0 <= i < placement@.len() ==> #[trigger] placement@[i].1 < timeline.blocks@.len(),
        exists|order: Seq<usize>|
            {
                &&& is_stable_order(timeline.blocks@, order)
                &&& placement@ == greedy_placement(timeline.blocks@, order)
                &&& forall|k: int|
                    0 <= k < order.len() ==> (#[trigger] placement@[order[k] as int]).0 == if k % 2 == 0 {
                        Side::Right
                    } else {
                        Side::Left
                    }
            },
{
    let blocks = &timeline.blocks;
    let n = blocks.len();
    let order = stable_order(blocks);
    let mut placement: Vec<(Side, usize)> = Vec::new();
    let mut i: usize = 0;
    while i < n
        invariant
            n == blocks.len(),
            i <= n,
            placement@ == Seq::new(i as nat, |j: int| (Side::Right, 0usize)),
        decreases n - i,
    {
        placement.push((Side::Right, 0usize));
        i = i + 1;
    }
    let mut right: Vec<Year> = Vec::new();
    let mut left: Vec<Year> = Vec::new();
    let mut rank: usize = 0;
    while rank < n
        invariant
            n == blocks.len(),
            rank <= n,
            is_stable_order(blocks@, order@),
            (right@, left@, placement@) == greedy(blocks@, order@, rank as nat),
            placement@.len() == n,
            right@.len() + left@.len() <= rank,
            forall|j: int| 0 <= j < n ==> #[trigger] placement@[j].1 < n,
        decreases n - rank,
    {
        let idx = order[rank];
        let start = blocks[idx].start_year;
        let end = blocks[idx].end_year;
        if rank % 2 == 0 {
            let d = place_first_fit(&mut right, start, end);
            placement.set(idx, (Side::Right, d));
        } else {
            let d = place_first_fit(&mut left, start, end);
            placement.set(idx, (Side::Left, d));
        }
        rank = rank + 1;
    }
    proof {
        assert forall|k: int| 0 <= k < order@.len() implies (#[trigger] placement@[order@[k] as int]).0
            == if k % 2 == 0 {
            Side::Right
        } else {
            Side::Left
        } by {
            sides_alternate(blocks@, order@, k);
        }
    }
    placement
}

/// `j` is the block drawn just before block `i` in the same lane: the last
/// block of `i`'s lane that comes before `i` in chronological order (among
/// the blocks that `placement` places).
pub open spec fn lane_predecessor(
    blocks: Seq<TimelineBlock>,
    placement: Seq<(Side, usize)>,
    i: int,
    j: int,
) -> bool {
    &&& 0 <= j < placement.len()
    &&& placement[j] == placement[i]
    &&& before(blocks, j, i)
    &&& forall|m: int|
        0 <= m < placement.len() && #[trigger] placement[m] == placement[i] && before(blocks, m, i)
            ==> m == j || before(blocks, m, j)
}

/// How many lanes `side` needs: one more than the deepest lane used there,
/// and at least one.
pub fn lane_counts(placement: &[(Side, usize)]) -> (counts: (usize, usize))
    requires
        forall|i: int| 0 <= i < placement@.len() ==> #[trigger] placement@[i].1 < usize::MAX,
    ensures
        counts.0 >= 1,
        counts.1 >= 1,
        forall|i: int|
            0 <= i < placement@.len() && #[trigger] placement@[i].0 == Side::Left ==> placement@[i].1
                < counts.0,
        forall|i: int|
            0 <= i < placement@.len() && #[trigger] placement@[i].0 == Side::Right ==> placement@[i].1
                < counts.1,
        counts.0 == 1 || exists|i: int|
            0 <= i < placement@.len() && placement@[i].0 == Side::Left && placement@[i].1 + 1
                == counts.0,
        counts.1 == 1 || exists|i: int|
            0 <= i < placement@.len() && placement@[i].0 == Side::Right && placement@[i].1 + 1
                == counts.1,
{
    let mut left: usize = 1;
    let mut right: usize = 1;
    let mut i: usize = 0;
    while i < placement.len()
        invariant
            i <= placement@.len(),
            forall|k: int| 0 <= k < placement@.len() ==> #[trigger] placement@[k].1 < usize::MAX,
            left >= 1,
            right >= 1,
            forall|k: int| 0 <= k < i && #[trigger] placement@[k].0 == Side::Left ==> placement@[k].1 < left,
            forall|k: int| 0 <= k < i && #[trigger] placement@[k].0 == Side::Right ==> placement@[k].1 < right,
            left == 1 || exists|k: int|
                0 <= k < i && placement@[k].0 == Side::Left && placement@[k].1 + 1 == left,
            right == 1 || exists|k: int|
                0 <= k < i && placement@[k].0 == Side::Right && placement@[k].1 + 1 == right,
        decreases placement@.len() - i,
    {
        let (side, depth) = placement[i];
        match side {
            Side::Left => {
                if depth + 1 > left {
                    left = depth + 1;
                }
            },
            Side::Right => {
                if depth + 1 > right {
                    right = depth + 1;
                }
            },
        }
        i = i + 1;
    }
    (left, right)
}

/// `before` as an executable comparison.
fn comes_before(blocks: &Vec<TimelineBlock>, i: usize, j: usize) -> (r: bool)
    requires
        i < blocks@.len(),
        j < blocks@.len(),
    ensures
        r == before(blocks@, i as int, j as int),
{
    let ki = blocks[i].start_year.total_key();
    let kj = blocks[j].start_year.total_key();
    ki < kj || (ki == kj && i < j)
}

/// For each block, the start year of the block drawn just before it in its
/// lane (see `lane_predecessor`), if any: the spilled-out label of a block
/// must stop before it runs into the block below it. Blocks beyond the end
/// of `placement` get none.
pub fn prev_end_year(timeline: &Timeline, placement: &[(Side, usize)]) -> (prev_end: Vec<Option<Year>>)
    requires
        placement@.len() <= timeline.blocks@.len(),
    ensures
        prev_end@.len() == timeline.blocks@.len(),
        forall|i: int|
            0 <= i < prev_end@.len() ==> match #[trigger] prev_end@[i] {
                None => i >= placement@.len() || forall|j: int|
                    0 <= j < placement@.len() && placement@[j] == placement@[i] ==> !before(
                        timeline.blocks@,
                        j,
                        i,
                    ),
                Some(e) => i < placement@.len() && exists|j: int|
                    lane_predecessor(timeline.blocks@, placement@, i, j) && e
                        == timeline.blocks@[j].start_year,
            },
{
    let blocks = &timeline.blocks;
    let n = blocks.len();
    let p = placement.len();
    let mut prev_end: Vec<Option<Year>> = Vec::new();
    let mut i: usize = 0;
    while i < n
        invariant
            n == blocks@.len(),
            p == placement@.len(),
            p <= n,
            i <= n,
            prev_end@.len() == i,
            forall|k: int|
                0 <= k < i ==> match #[trigger] prev_end@[k] {
                    None => k >= p || forall|j: int|
                        0 <= j < p && placement@[j] == placement@[k] ==> !before(blocks@, j, k),
                    Some(e) => k < p && exists|j: int|
                        lane_predecessor(blocks@, placement@, k, j) && e == blocks@[j].start_year,
                },
        decreases n - i,
    {
        if i >= p {
            prev_end.push(None);
            i = i + 1;
            continue;
        }
        let mut best: Option<usize> = None;
        let mut j: usize = 0;
        while j < p
            invariant
                n == blocks@.len(),
                p == placement@.len(),
                p <= n,
                i < p,
                j <= p,
                match best {
                    None => forall|m: int|
                        0 <= m < j && placement@[m] == placement@[i as int] ==> !before(
                            blocks@,
                            m,
                            i as int,
                        ),
                    Some(b) => {
                        &&& b < p
                        &&& placement@[b as int] == placement@[i as int]
                        &&& before(blocks@, b as int, i as int)
                        &&& forall|m: int|
                            0 <= m < j && #[trigger] placement@[m] == placement@[i as int] && before(
                                blocks@,
                                m,
                                i as int,
                            ) ==> m == b || before(blocks@, m, b as int)
                    },
                },
            decreases p - j,
        {
            let same_lane = placement[j].0 == placement[i].0 && placement[j].1 == placement[i].1;
            if same_lane && comes_before(blocks, j, i) {
                match best {
                    None => {
                        best = Some(j);
                    },
                    Some(b) => {
                        if comes_before(blocks, b, j) {
                            best = Some(j);
                        }
                    },
                }
            }
            j = j + 1;
        }
        match best {
            None => {
                prev_end.push(None);
            },
            Some(b) => {
                assert(lane_predecessor(blocks@, placement@, i as int, b as int));
                prev_end.push(Some(blocks[b].start_year));
            },
        }
        i = i + 1;
    }
    prev_end
}

} // verus!
