use vstd::prelude::*;
use crate::model::{Year, TimelineBlock, total_key};
use crate::placement::{
    Side, before, is_stable_order, occurs, side_of_rank, first_fit_from, place_in, greedy,
    greedy_placement, lane_predecessor,
};

verus! {

/// The lane ends of `side` in a state of the greedy placement.
pub open spec fn lane_ends(g: (Seq<Year>, Seq<Year>, Seq<(Side, usize)>), side: Side) -> Seq<Year> {
    if side == Side::Right {
        g.0
    } else {
        g.1
    }
}

/// The lane of the block at position `r` of `order`.
pub open spec fn at(p: Seq<(Side, usize)>, order: Seq<usize>, r: int) -> (Side, usize) {
    p[order[r] as int]
}

pub open spec fn start_at(blocks: Seq<TimelineBlock>, order: Seq<usize>, r: int) -> Year {
    blocks[order[r] as int].start_year
}

pub open spec fn end_at(blocks: Seq<TimelineBlock>, order: Seq<usize>, r: int) -> Year {
    blocks[order[r] as int].end_year
}

/// Position `r2` is the last one before position `r` placed in `lane`.
pub open spec fn last_in_lane(
    p: Seq<(Side, usize)>,
    order: Seq<usize>,
    lane: (Side, usize),
    r2: int,
    r: int,
) -> bool {
    &&& 0 <= r2 < r
    &&& at(p, order, r2) == lane
    &&& forall|r3: int| r2 < r3 < r ==> #[trigger] at(p, order, r3) != lane
}

pub open spec fn lane_has_last(
    blocks: Seq<TimelineBlock>,
    order: Seq<usize>,
    p: Seq<(Side, usize)>,
    side: Side,
    d: int,
    k: int,
    e: Year,
) -> bool {
    exists|r2: int| last_in_lane(p, order, (side, d as usize), r2, k) && e == end_at(blocks, order, r2)
}

pub open spec fn overlaps_last(
    blocks: Seq<TimelineBlock>,
    order: Seq<usize>,
    p: Seq<(Side, usize)>,
    r: int,
    d2: int,
) -> bool {
    exists|r2: int|
        last_in_lane(p, order, (at(p, order, r).0, d2 as usize), r2, r) && !start_at(
            blocks,
            order,
            r,
        ).spec_ge(end_at(blocks, order, r2))
}

/// What holds once the first `k` blocks of `order` are placed.
pub open spec fn greedy_inv(blocks: Seq<TimelineBlock>, order: Seq<usize>, k: nat) -> bool {
    let g = greedy(blocks, order, k);
    let p = g.2;
    &&& p.len() == blocks.len()
    &&& g.0.len() + g.1.len() <= k
    &&& forall|r: int|
        0 <= r < k ==> (#[trigger] at(p, order, r)).0 == side_of_rank(r) && at(p, order, r).1
            < lane_ends(g, side_of_rank(r)).len()
    &&& forall|side: Side, d: int|
        0 <= d < lane_ends(g, side).len() ==> #[trigger] lane_has_last(
            blocks,
            order,
            p,
            side,
            d,
            k as int,
            lane_ends(g, side)[d],
        )
    &&& forall|r: int, r2: int|
        0 <= r < k && #[trigger] last_in_lane(p, order, at(p, order, r), r2, r) ==> start_at(
            blocks,
            order,
            r,
        ).spec_ge(end_at(blocks, order, r2))
    &&& forall|r: int, d2: int|
        0 <= r < k && 0 <= d2 < at(p, order, r).1 ==> #[trigger] overlaps_last(blocks, order, p, r, d2)
}

proof fn lemma_first_fit(ends: Seq<Year>, start: Year, d: int)
    requires
        0 <= d <= ends.len(),
    ensures
        d <= first_fit_from(ends, start, d) <= ends.len(),
        first_fit_from(ends, start, d) < ends.len() ==> start.spec_ge(
            ends[first_fit_from(ends, start, d)],
        ),
        forall|d2: int| d <= d2 < first_fit_from(ends, start, d) ==> !start.spec_ge(#[trigger] ends[d2]),
    decreases ends.len() - d,
{
    if d < ends.len() && !start.spec_ge(ends[d]) {
        lemma_first_fit(ends, start, d + 1);
    }
}

proof fn lemma_last_unique(
    p: Seq<(Side, usize)>,
    order: Seq<usize>,
    lane: (Side, usize),
    a: int,
    b: int,
    r: int,
)
    requires
        last_in_lane(p, order, lane, a, r),
        last_in_lane(p, order, lane, b, r),
    ensures
        a == b,
{
    if a < b {
        assert(at(p, order, b) != lane);
    } else if b < a {
        assert(at(p, order, a) != lane);
    }
}

proof fn lemma_last_frame(
    p: Seq<(Side, usize)>,
    q: Seq<(Side, usize)>,
    order: Seq<usize>,
    lane: (Side, usize),
    r2: int,
    r: int,
    bound: int,
)
    requires
        r <= bound,
        forall|r3: int| 0 <= r3 < bound ==> #[trigger] at(p, order, r3) == at(q, order, r3),
    ensures
        last_in_lane(p, order, lane, r2, r) == last_in_lane(q, order, lane, r2, r),
{
    if last_in_lane(p, order, lane, r2, r) {
        assert forall|r3: int| r2 < r3 < r implies #[trigger] at(q, order, r3) != lane by {
            assert(at(p, order, r3) != lane);
        }
    }
    if last_in_lane(q, order, lane, r2, r) {
        assert forall|r3: int| r2 < r3 < r implies #[trigger] at(p, order, r3) != lane by {
            assert(at(q, order, r3) != lane);
        }
    }
}

proof fn lemma_order_distinct(blocks: Seq<TimelineBlock>, order: Seq<usize>, a: int, b: int)
    requires
        is_stable_order(blocks, order),
        0 <= a < order.len(),
        0 <= b < order.len(),
        a != b,
    ensures
        order[a] != order[b],
{
    if a < b {
        assert(before(blocks, order[a] as int, order[b] as int));
    } else {
        assert(before(blocks, order[b] as int, order[a] as int));
    }
}

#[verifier::rlimit(50)]
proof fn lemma_greedy_inv(blocks: Seq<TimelineBlock>, order: Seq<usize>, k: nat)
    requires
        is_stable_order(blocks, order),
        k <= blocks.len(),
        blocks.len() <= usize::MAX,
    ensures
        greedy_inv(blocks, order, k),
    decreases k,
{
    if k == 0 {
        return;
    }
    lemma_greedy_inv(blocks, order, (k - 1) as nat);
    let g = greedy(blocks, order, (k - 1) as nat);
    let gn = greedy(blocks, order, k);
    let p = g.2;
    let q = gn.2;
    let r = k - 1;
    let idx = order[r] as int;
    let side = side_of_rank(r);
    let e = lane_ends(g, side);
    let en = lane_ends(gn, side);
    let start = blocks[idx].start_year;
    let d = first_fit_from(e, start, 0);
    lemma_first_fit(e, start, 0);
    assert(q == p.update(idx, (side, d as usize)));
    assert(en == place_in(e, d, blocks[idx].end_year));
    assert(lane_ends(gn, if side == Side::Right { Side::Left } else { Side::Right })
        == lane_ends(g, if side == Side::Right { Side::Left } else { Side::Right }));
    assert forall|r3: int| 0 <= r3 < r implies #[trigger] at(p, order, r3) == at(q, order, r3) by {
        lemma_order_distinct(blocks, order, r3, r);
    }
    assert(at(q, order, r) == (side, d as usize));
    // Sides and depths.
    assert forall|r1: int| 0 <= r1 < k implies (#[trigger] at(q, order, r1)).0 == side_of_rank(r1)
        && at(q, order, r1).1 < lane_ends(gn, side_of_rank(r1)).len() by {
        if r1 < r {
            assert(at(p, order, r1) == at(q, order, r1));
        }
    }
    // Each lane's end is the end of its last block.
    assert forall|s: Side, d1: int| 0 <= d1 < lane_ends(gn, s).len() implies #[trigger] lane_has_last(
        blocks,
        order,
        q,
        s,
        d1,
        k as int,
        lane_ends(gn, s)[d1],
    ) by {
        if s == side && d1 == d {
            assert(last_in_lane(q, order, (s, d1 as usize), r, k as int));
            assert(lane_ends(gn, s)[d1] == end_at(blocks, order, r));
        } else {
            assert(d1 < lane_ends(g, s).len());
            assert(lane_ends(gn, s)[d1] == lane_ends(g, s)[d1]);
            assert(lane_has_last(blocks, order, p, s, d1, r, lane_ends(g, s)[d1]));
            let r2 = choose|r2: int|
                last_in_lane(p, order, (s, d1 as usize), r2, r) && lane_ends(g, s)[d1] == end_at(
                    blocks,
                    order,
                    r2,
                );
            lemma_last_frame(p, q, order, (s, d1 as usize), r2, r, r);
            assert forall|r3: int| r2 < r3 < k implies #[trigger] at(q, order, r3) != (
                s,
                d1 as usize,
            ) by {
                if r3 < r {
                    assert(at(p, order, r3) != (s, d1 as usize));
                }
            }
            assert(last_in_lane(q, order, (s, d1 as usize), r2, k as int));
        }
    }
    // A block starts no earlier than the last one of its lane ends.
    assert forall|r1: int, r2: int|
        0 <= r1 < k && #[trigger] last_in_lane(q, order, at(q, order, r1), r2, r1) implies start_at(
        blocks,
        order,
        r1,
    ).spec_ge(end_at(blocks, order, r2)) by {
        if r1 < r {
            lemma_last_frame(p, q, order, at(q, order, r1), r2, r1, r);
            assert(at(p, order, r1) == at(q, order, r1));
            assert(last_in_lane(p, order, at(p, order, r1), r2, r1));
        } else {
            lemma_last_frame(p, q, order, (side, d as usize), r2, r, r);
            assert(last_in_lane(p, order, (side, d as usize), r2, r));
            assert(at(p, order, r2) == (side, d as usize));
            assert(at(p, order, r2).1 < lane_ends(g, side_of_rank(r2)).len());
            assert(d < e.len());
            assert(lane_has_last(blocks, order, p, side, d, r, e[d]));
            let rl = choose|rl: int|
                last_in_lane(p, order, (side, d as usize), rl, r) && e[d] == end_at(blocks, order, rl);
            lemma_last_unique(p, order, (side, d as usize), r2, rl, r);
        }
    }
    // A block only goes further out when it overlaps the last block of each nearer lane.
    assert forall|r1: int, d2: int| 0 <= r1 < k && 0 <= d2 < at(q, order, r1).1 implies #[trigger] overlaps_last(
        blocks,
        order,
        q,
        r1,
        d2,
    ) by {
        if r1 < r {
            assert(at(p, order, r1) == at(q, order, r1));
            assert(overlaps_last(blocks, order, p, r1, d2));
            let r2 = choose|r2: int|
                last_in_lane(p, order, (at(p, order, r1).0, d2 as usize), r2, r1) && !start_at(
                    blocks,
                    order,
                    r1,
                ).spec_ge(end_at(blocks, order, r2));
            lemma_last_frame(p, q, order, (at(p, order, r1).0, d2 as usize), r2, r1, r);
            assert(last_in_lane(q, order, (at(q, order, r1).0, d2 as usize), r2, r1));
        } else {
            assert(!start.spec_ge(e[d2]));
            assert(lane_has_last(blocks, order, p, side, d2, r, e[d2]));
            let rl = choose|rl: int|
                last_in_lane(p, order, (side, d2 as usize), rl, r) && e[d2] == end_at(blocks, order, rl);
            lemma_last_frame(p, q, order, (side, d2 as usize), rl, r, r);
            assert(last_in_lane(q, order, (at(q, order, r1).0, d2 as usize), rl, r1));
        }
    }
}

proof fn lemma_rank_order(blocks: Seq<TimelineBlock>, order: Seq<usize>, a: int, b: int)
    requires
        is_stable_order(blocks, order),
        0 <= a < order.len(),
        0 <= b < order.len(),
        before(blocks, order[a] as int, order[b] as int),
    ensures
        a < b,
{
    if b < a {
        assert(before(blocks, order[b] as int, order[a] as int));
    }
}

proof fn lemma_rank_of(blocks: Seq<TimelineBlock>, order: Seq<usize>, i: int) -> (r: int)
    requires
        is_stable_order(blocks, order),
        0 <= i < blocks.len(),
    ensures
        0 <= r < order.len(),
        order[r] == i,
{
    assert(occurs(order, i));
    choose|k: int| 0 <= k < order.len() && order[k] == i
}

proof fn lemma_unique_prefix(blocks: Seq<TimelineBlock>, o1: Seq<usize>, o2: Seq<usize>, k: int)
    requires
        is_stable_order(blocks, o1),
        is_stable_order(blocks, o2),
        0 <= k <= o1.len(),
    ensures
        forall|m: int| 0 <= m < k ==> o1[m] == o2[m],
    decreases k,
{
    if k == 0 {
        return;
    }
    let k1 = k - 1;
    lemma_unique_prefix(blocks, o1, o2, k1);
    let a = o1[k1] as int;
    let b = o2[k1] as int;
    let ka = lemma_rank_of(blocks, o2, a);
    let kb = lemma_rank_of(blocks, o1, b);
    if ka < k1 {
        assert(o1[ka] == o2[ka]);
        lemma_order_distinct(blocks, o1, ka, k1);
    }
    if kb < k1 {
        assert(o2[kb] == o1[kb]);
        lemma_order_distinct(blocks, o2, kb, k1);
    }
    if ka > k1 && kb > k1 {
        assert(before(blocks, o2[k1] as int, o2[ka] as int));
        assert(before(blocks, o1[k1] as int, o1[kb] as int));
    }
}

/// Two stable chronological orders of the same blocks are the same, so the
/// placement that `assign_placement` returns is determined by the blocks.
pub proof fn stable_order_is_unique(blocks: Seq<TimelineBlock>, o1: Seq<usize>, o2: Seq<usize>)
    requires
        is_stable_order(blocks, o1),
        is_stable_order(blocks, o2),
    ensures
        o1 == o2,
{
    lemma_unique_prefix(blocks, o1, o2, o1.len() as int);
    assert(o1 =~= o2);
}

/// A stable chronological order lists the blocks by start year in the
/// total order of `f32::total_cmp`, blocks with equal start years in list
/// order.
pub proof fn stable_order_is_chronological(blocks: Seq<TimelineBlock>, order: Seq<usize>)
    requires
        is_stable_order(blocks, order),
    ensures
        order.len() == blocks.len(),
        forall|k1: int, k2: int|
            0 <= k1 < k2 < order.len() ==> {
                let a = blocks[#[trigger] order[k1] as int].start_year.bits;
                let b = blocks[#[trigger] order[k2] as int].start_year.bits;
                ||| total_key(a) < total_key(b)
                ||| (total_key(a) == total_key(b) && order[k1] < order[k2])
            },
{
    assert forall|k1: int, k2: int| 0 <= k1 < k2 < order.len() implies {
        let a = blocks[#[trigger] order[k1] as int].start_year.bits;
        let b = blocks[#[trigger] order[k2] as int].start_year.bits;
        ||| total_key(a) < total_key(b)
        ||| (total_key(a) == total_key(b) && order[k1] < order[k2])
    } by {
        assert(before(blocks, order[k1] as int, order[k2] as int));
    }
}

/// Sides alternate in chronological order: the block at position `k` of the
/// order is on the right when `k` is even and on the left when it is odd.
pub proof fn sides_alternate(blocks: Seq<TimelineBlock>, order: Seq<usize>, k: int)
    requires
        is_stable_order(blocks, order),
        blocks.len() <= usize::MAX,
        0 <= k < blocks.len(),
    ensures
        greedy_placement(blocks, order)[order[k] as int].0 == if k % 2 == 0 {
            Side::Right
        } else {
            Side::Left
        },
{
    lemma_greedy_inv(blocks, order, blocks.len());
    assert(at(greedy_placement(blocks, order), order, k).0 == side_of_rank(k));
}

/// Blocks that share a lane never overlap: a block starts no earlier (by
/// `f32` `>=`) than the block drawn just before it in its lane ends.
pub proof fn lane_neighbours_do_not_overlap(
    blocks: Seq<TimelineBlock>,
    order: Seq<usize>,
    i: int,
    j: int,
)
    requires
        is_stable_order(blocks, order),
        blocks.len() <= usize::MAX,
        0 <= i < blocks.len(),
        lane_predecessor(blocks, greedy_placement(blocks, order), i, j),
    ensures
        blocks[i].start_year.spec_ge(blocks[j].end_year),
{
    let n = blocks.len();
    lemma_greedy_inv(blocks, order, n);
    let p = greedy_placement(blocks, order);
    let ri = lemma_rank_of(blocks, order, i);
    let rj = lemma_rank_of(blocks, order, j);
    lemma_rank_order(blocks, order, rj, ri);
    assert forall|r3: int| rj < r3 < ri implies #[trigger] at(p, order, r3) != at(p, order, ri) by {
        if at(p, order, r3) == at(p, order, ri) {
            assert(before(blocks, order[r3] as int, order[ri] as int));
            assert(before(blocks, order[rj] as int, order[r3] as int));
            lemma_order_distinct(blocks, order, r3, rj);
            assert(p[order[r3] as int] == p[i]);
        }
    }
    assert(last_in_lane(p, order, at(p, order, ri), rj, ri));
}

/// Block `j` is the last block before block `i` in lane `d2` of `i`'s
/// side, and `i` starts before `j` ends (or a start or end is a NaN).
pub open spec fn blocks_overlap_in_lane(
    blocks: Seq<TimelineBlock>,
    p: Seq<(Side, usize)>,
    i: int,
    d2: int,
    j: int,
) -> bool {
    &&& 0 <= j < blocks.len()
    &&& p[j] == (p[i].0, d2 as usize)
    &&& before(blocks, j, i)
    &&& !blocks[i].start_year.spec_ge(blocks[j].end_year)
    &&& forall|m: int|
        0 <= m < blocks.len() && #[trigger] p[m] == p[j] && before(blocks, m, i) ==> m == j || before(
            blocks,
            m,
            j,
        )
}

/// A block is only put further out than lane `d2` of its side when it
/// overlaps the block drawn last before it in lane `d2`: that block `j`
/// comes before it and it does not start at or after `j`'s end.
pub proof fn deeper_lane_only_on_overlap(
    blocks: Seq<TimelineBlock>,
    order: Seq<usize>,
    i: int,
    d2: int,
)
    requires
        is_stable_order(blocks, order),
        blocks.len() <= usize::MAX,
        0 <= i < blocks.len(),
        0 <= d2 < greedy_placement(blocks, order)[i].1,
    ensures
        exists|j: int| #[trigger] blocks_overlap_in_lane(blocks, greedy_placement(blocks, order), i, d2, j),
{
    let n = blocks.len();
    lemma_greedy_inv(blocks, order, n);
    let p = greedy_placement(blocks, order);
    let ri = lemma_rank_of(blocks, order, i);
    assert(overlaps_last(blocks, order, p, ri, d2));
    let lane = (p[i].0, d2 as usize);
    let r2 = choose|r2: int|
        last_in_lane(p, order, lane, r2, ri) && !start_at(blocks, order, ri).spec_ge(
            end_at(blocks, order, r2),
        );
    let j = order[r2] as int;
    assert(before(blocks, j, i));
    assert forall|m: int|
        0 <= m < blocks.len() && #[trigger] p[m] == p[j] && before(blocks, m, i) implies m == j
            || before(blocks, m, j) by {
        let rm = lemma_rank_of(blocks, order, m);
        lemma_rank_order(blocks, order, rm, ri);
        if rm > r2 {
            assert(at(p, order, rm) != lane);
        } else if rm < r2 {
            assert(before(blocks, order[rm] as int, order[r2] as int));
        }
    }
    assert(blocks_overlap_in_lane(blocks, p, i, d2, j));
}

/// `f32` `>=` is transitive.
pub proof fn year_ge_transitive(a: Year, b: Year, c: Year)
    requires
        a.spec_ge(b),
        b.spec_ge(c),
    ensures
        a.spec_ge(c),
{
}

proof fn lemma_last_exists(
    p: Seq<(Side, usize)>,
    order: Seq<usize>,
    lane: (Side, usize),
    lo: int,
    r: int,
) -> (r2: int)
    requires
        0 <= lo < r,
        at(p, order, lo) == lane,
    ensures
        lo <= r2,
        last_in_lane(p, order, lane, r2, r),
    decreases r - lo,
{
    if exists|r3: int| lo < r3 < r && #[trigger] at(p, order, r3) == lane {
        let r3 = choose|r3: int| lo < r3 < r && #[trigger] at(p, order, r3) == lane;
        lemma_last_exists(p, order, lane, r3, r)
    } else {
        lo
    }
}

proof fn lemma_lane_pairwise(blocks: Seq<TimelineBlock>, order: Seq<usize>, ri: int, rj: int)
    requires
        is_stable_order(blocks, order),
        blocks.len() <= usize::MAX,
        greedy_inv(blocks, order, blocks.len()),
        forall|m: int| 0 <= m < blocks.len() ==> #[trigger] blocks[m].end_year.spec_ge(blocks[m].start_year),
        0 <= rj < ri < blocks.len(),
        at(greedy_placement(blocks, order), order, rj) == at(greedy_placement(blocks, order), order, ri),
    ensures
        start_at(blocks, order, ri).spec_ge(end_at(blocks, order, rj)),
    decreases ri,
{
    let p = greedy_placement(blocks, order);
    let lane = at(p, order, ri);
    let r2 = lemma_last_exists(p, order, lane, rj, ri);
    assert(last_in_lane(p, order, at(p, order, ri), r2, ri));
    if r2 != rj {
        lemma_lane_pairwise(blocks, order, r2, rj);
        let m = order[r2] as int;
        assert(blocks[m].end_year.spec_ge(blocks[m].start_year));
        year_ge_transitive(end_at(blocks, order, r2), start_at(blocks, order, r2), end_at(blocks, order, rj));
        year_ge_transitive(start_at(blocks, order, ri), end_at(blocks, order, r2), end_at(blocks, order, rj));
    }
}

/// Blocks that share a lane never overlap, when every block ends no earlier
/// than it starts: a block starts no earlier (by `f32` `>=`) than any block
/// that comes before it in its lane ends.
pub proof fn lane_blocks_do_not_overlap(blocks: Seq<TimelineBlock>, order: Seq<usize>, i: int, j: int)
    requires
        is_stable_order(blocks, order),
        blocks.len() <= usize::MAX,
        forall|m: int| 0 <= m < blocks.len() ==> #[trigger] blocks[m].end_year.spec_ge(blocks[m].start_year),
        0 <= i < blocks.len(),
        0 <= j < blocks.len(),
        greedy_placement(blocks, order)[i] == greedy_placement(blocks, order)[j],
        before(blocks, j, i),
    ensures
        blocks[i].start_year.spec_ge(blocks[j].end_year),
{
    lemma_greedy_inv(blocks, order, blocks.len());
    let ri = lemma_rank_of(blocks, order, i);
    let rj = lemma_rank_of(blocks, order, j);
    lemma_rank_order(blocks, order, rj, ri);
    lemma_lane_pairwise(blocks, order, ri, rj);
}

} // verus!
