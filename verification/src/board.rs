//! The board: marble map, settings, score, action queue, and the tick state
//! machine that drives spawning, queued actions, gravity and blob clearing.

use vstd::prelude::*;

use crate::action::{BoardAction, DELETE_COLOR_TIME};
use crate::hex::{dir_of, fall_measure, HexCoord, HexDir, MAX_RADIUS};
use crate::hex::{lemma_bounded_coord, lemma_fall_measure_decreases};
use crate::marble::Marble;
use crate::marble_map::{color_count, vals_of, MarbleMap};
use crate::settings::BoardSettings;

verus! {

/// The spawn interval never exceeds this (the slowest tier at the lowest
/// spawn multiplier).
pub const SPAWN_TIMER_BOUND: u32 = 60000;

/// A cell lies on a board of the given radius.
pub open spec fn in_bounds(c: HexCoord, radius: int) -> bool {
    c.center_dist() <= radius
}

/// A cell is solid when it lies outside the board or holds a marble.
pub open spec fn spec_solid(m: Map<HexCoord, Marble>, radius: int, c: HexCoord) -> bool {
    !in_bounds(c, radius) || m.contains_key(c)
}

/// The cell one step from `c` in the gravity direction turned by `k` sixths
/// of a turn.
pub open spec fn fall_candidate(c: HexCoord, k: int) -> HexCoord {
    c.spec_step(c.spec_gravity_dir().spec_rotate(k))
}

/// The local fall rule: look forward, left and right of "down"; if fewer
/// than two of the three are solid, fall to the first open one in that
/// order.
pub open spec fn spec_gravity_step(m: Map<HexCoord, Marble>, radius: int, c: HexCoord) -> Option<
    HexCoord,
> {
    let forward = fall_candidate(c, 0);
    let left = fall_candidate(c, 5);
    let right = fall_candidate(c, 1);
    let solids = (if spec_solid(m, radius, forward) {
        1int
    } else {
        0int
    }) + (if spec_solid(m, radius, left) {
        1int
    } else {
        0int
    }) + (if spec_solid(m, radius, right) {
        1int
    } else {
        0int
    });
    if solids < 2 {
        if !spec_solid(m, radius, forward) {
            Some(forward)
        } else if !spec_solid(m, radius, left) {
            Some(left)
        } else {
            Some(right)
        }
    } else {
        None
    }
}

/// Where a point comes to rest: follow the fall rule until it stops.
pub open spec fn spec_settle(m: Map<HexCoord, Marble>, radius: int, c: HexCoord) -> HexCoord
    recommends
        in_bounds(c, radius),
        0 <= radius <= MAX_RADIUS as int,
    decreases fall_measure(c, radius),
        when in_bounds(c, radius) && 0 <= radius <= MAX_RADIUS as int
    via spec_settle_decreases
{
    match spec_gravity_step(m, radius, c) {
        Some(t) => spec_settle(m, radius, t),
        None => c,
    }
}

#[via_fn]
proof fn spec_settle_decreases(m: Map<HexCoord, Marble>, radius: int, c: HexCoord) {
    match spec_gravity_step(m, radius, c) {
        Some(t) => {
            lemma_step_measure(m, radius, c, t);
        },
        None => {},
    }
}

/// No occupied cell can fall any further.
pub open spec fn settled(m: Map<HexCoord, Marble>, radius: int) -> bool {
    forall|c: HexCoord|
        #[trigger] m.contains_key(c) ==> spec_gravity_step(m, radius, c).is_none()
}

/// Sum of the fall measures of a key-value sequence: the gravity loops
/// terminate because every relocation shrinks it.
pub open spec fn fall_sum(s: Seq<(HexCoord, Marble)>, radius: int) -> int
    decreases s.len(),
{
    if s.len() == 0 {
        0
    } else {
        fall_sum(s.drop_last(), radius) + fall_measure(s.last().0, radius)
    }
}

proof fn lemma_fall_sum_push(s: Seq<(HexCoord, Marble)>, e: (HexCoord, Marble), radius: int)
    ensures
        fall_sum(s.push(e), radius) == fall_sum(s, radius) + fall_measure(e.0, radius),
{
    assert(s.push(e).drop_last() =~= s);
}

proof fn lemma_fall_sum_remove(s: Seq<(HexCoord, Marble)>, i: int, radius: int)
    requires
        0 <= i < s.len(),
    ensures
        fall_sum(s.remove(i), radius) == fall_sum(s, radius) - fall_measure((s[i]).0, radius),
    decreases s.len(),
{
    if i == s.len() - 1 {
        assert(s.remove(i) =~= s.drop_last());
    } else {
        assert(s.remove(i).drop_last() =~= s.drop_last().remove(i));
        assert(s.remove(i).last() == s.last());
        lemma_fall_sum_remove(s.drop_last(), i, radius);
    }
}

proof fn lemma_fall_sum_nonneg(s: Seq<(HexCoord, Marble)>, radius: int)
    requires
        forall|i: int| 0 <= i < s.len() ==> in_bounds((#[trigger] s[i]).0, radius),
        0 <= radius <= MAX_RADIUS as int,
    ensures
        0 <= fall_sum(s, radius),
    decreases s.len(),
{
    if s.len() > 0 {
        assert(forall|i: int|
            0 <= i < s.drop_last().len() ==> in_bounds((#[trigger] s.drop_last()[i]).0, radius));
        lemma_fall_sum_nonneg(s.drop_last(), radius);
        let c = s.last().0;
        crate::hex::lemma_axis_offset_le_center_dist(c);
        assert((radius - c.center_dist()) * (radius + 2) >= 0) by (nonlinear_arith)
            requires
                c.center_dist() <= radius,
                0 <= radius,
        ;
    }
}

/// Taking one entry out and putting its marble back at another cell keeps
/// the multiset of marbles on the board.
proof fn lemma_vals_relocate(s: Seq<(HexCoord, Marble)>, i: int, t: HexCoord, v: Marble)
    requires
        0 <= i < s.len(),
        (s[i]).1 == v,
    ensures
        vals_of(s.remove(i).push((t, v))).to_multiset() =~= vals_of(s).to_multiset(),
{
    broadcast use vstd::seq_lib::group_to_multiset_ensures;

    let vs = vals_of(s);
    assert(vals_of(s.remove(i)) =~= vs.remove(i));
    assert(vals_of(s.remove(i).push((t, v))) =~= vs.remove(i).push(v));
    assert(vs.remove(i).to_multiset() =~= vs.to_multiset().remove(vs[i]));
    assert(vs.remove(i).push(v).to_multiset() =~= vs.remove(i).to_multiset().insert(v));
    assert(vs[i] == v);
    assert(vs.contains(v)) by {
        assert(vs[i] == v);
    }
    assert(vs.to_multiset().count(v) > 0);
    assert(vs.to_multiset().remove(v).insert(v) =~= vs.to_multiset());
}

/// A step the fall rule actually takes shrinks the falling marble's
/// measure.
proof fn lemma_step_measure(m: Map<HexCoord, Marble>, radius: int, c: HexCoord, t: HexCoord)
    requires
        spec_gravity_step(m, radius, c) == Some(t),
        in_bounds(c, radius),
        0 <= radius <= MAX_RADIUS as int,
    ensures
        0 <= fall_measure(t, radius) < fall_measure(c, radius),
        in_bounds(t, radius),
{
    lemma_bounded_coord(c, radius);
    lemma_bounded_coord(t, radius + 2);
    let g = c.spec_gravity_dir();
    if t == c.spec_step(g.spec_rotate(0)) {
        lemma_fall_measure_decreases(c, t, 0, radius);
    } else if t == c.spec_step(g.spec_rotate(5)) {
        lemma_fall_measure_decreases(c, t, 5, radius);
    } else {
        assert(t == c.spec_step(g.spec_rotate(1)));
        lemma_fall_measure_decreases(c, t, 1, radius);
    }
}

/// A cell has only six neighbors, so among any seven cells adjacent to it
/// two coincide.
#[verifier::rlimit(100)]
proof fn lemma_seven_neighbors_collide(c: HexCoord, failed: Seq<(Marble, HexCoord)>)
    requires
        c.in_range(),
        failed.len() == 7,
        forall|t: int| 0 <= t < 7 ==> c.spec_adjacent((#[trigger] failed[t]).1),
    ensures
        exists|t1: int, t2: int| 0 <= t1 < t2 < 7 && (#[trigger] failed[t1]).1 == (#[trigger] failed[t2]).1,
{
    let n0 = (failed[0]).1;
    let n1 = (failed[1]).1;
    let n2 = (failed[2]).1;
    let n3 = (failed[3]).1;
    let n4 = (failed[4]).1;
    let n5 = (failed[5]).1;
    let n6 = (failed[6]).1;
    crate::hex::lemma_adjacent_iff_step(c, n0);
    crate::hex::lemma_adjacent_iff_step(c, n1);
    crate::hex::lemma_adjacent_iff_step(c, n2);
    crate::hex::lemma_adjacent_iff_step(c, n3);
    crate::hex::lemma_adjacent_iff_step(c, n4);
    crate::hex::lemma_adjacent_iff_step(c, n5);
    crate::hex::lemma_adjacent_iff_step(c, n6);
    let d0 = choose|k: int| 0 <= k < 6 && n0 == c.spec_step(#[trigger] dir_of(k));
    let d1 = choose|k: int| 0 <= k < 6 && n1 == c.spec_step(#[trigger] dir_of(k));
    let d2 = choose|k: int| 0 <= k < 6 && n2 == c.spec_step(#[trigger] dir_of(k));
    let d3 = choose|k: int| 0 <= k < 6 && n3 == c.spec_step(#[trigger] dir_of(k));
    let d4 = choose|k: int| 0 <= k < 6 && n4 == c.spec_step(#[trigger] dir_of(k));
    let d5 = choose|k: int| 0 <= k < 6 && n5 == c.spec_step(#[trigger] dir_of(k));
    let d6 = choose|k: int| 0 <= k < 6 && n6 == c.spec_step(#[trigger] dir_of(k));
    assert(d0 == d1 || d0 == d2 || d0 == d3 || d0 == d4 || d0 == d5 || d0 == d6 || d1 == d2 || d1
        == d3 || d1 == d4 || d1 == d5 || d1 == d6 || d2 == d3 || d2 == d4 || d2 == d5 || d2 == d6
        || d3 == d4 || d3 == d5 || d3 == d6 || d4 == d5 || d4 == d6 || d5 == d6);
    assert(exists|t1: int, t2: int|
        0 <= t1 < t2 < 7 && (#[trigger] failed[t1]).1 == (#[trigger] failed[t2]).1) by {
        if d0 == d1 {
            assert((failed[0]).1 == (failed[1]).1);
        } else if d0 == d2 {
            assert((failed[0]).1 == (failed[2]).1);
        } else if d0 == d3 {
            assert((failed[0]).1 == (failed[3]).1);
        } else if d0 == d4 {
            assert((failed[0]).1 == (failed[4]).1);
        } else if d0 == d5 {
            assert((failed[0]).1 == (failed[5]).1);
        } else if d0 == d6 {
            assert((failed[0]).1 == (failed[6]).1);
        } else if d1 == d2 {
            assert((failed[1]).1 == (failed[2]).1);
        } else if d1 == d3 {
            assert((failed[1]).1 == (failed[3]).1);
        } else if d1 == d4 {
            assert((failed[1]).1 == (failed[4]).1);
        } else if d1 == d5 {
            assert((failed[1]).1 == (failed[5]).1);
        } else if d1 == d6 {
            assert((failed[1]).1 == (failed[6]).1);
        } else if d2 == d3 {
            assert((failed[2]).1 == (failed[3]).1);
        } else if d2 == d4 {
            assert((failed[2]).1 == (failed[4]).1);
        } else if d2 == d5 {
            assert((failed[2]).1 == (failed[5]).1);
        } else if d2 == d6 {
            assert((failed[2]).1 == (failed[6]).1);
        } else if d3 == d4 {
            assert((failed[3]).1 == (failed[4]).1);
        } else if d3 == d5 {
            assert((failed[3]).1 == (failed[5]).1);
        } else if d3 == d6 {
            assert((failed[3]).1 == (failed[6]).1);
        } else if d4 == d5 {
            assert((failed[4]).1 == (failed[5]).1);
        } else if d4 == d6 {
            assert((failed[4]).1 == (failed[6]).1);
        } else {
            assert((failed[5]).1 == (failed[6]).1);
        }
    }
}

/// The wall-following scan from `prev`, trying directions in clockwise
/// order from `k`: the first whose ahead cell is open while the cell a
/// further left turn away is solid.
pub open spec fn wall_scan(m: Map<HexCoord, Marble>, radius: int, prev: HexCoord, k: int) -> Option<
    HexCoord,
>
    decreases 6 - k,
{
    if k < 0 || k >= 6 {
        None
    } else {
        let ahead = prev.spec_step(dir_of(k));
        let wall = prev.spec_step(dir_of(k).spec_rotate(5));
        if !spec_solid(m, radius, ahead) && spec_solid(m, radius, wall) {
            Some(ahead)
        } else {
            wall_scan(m, radius, prev, k + 1)
        }
    }
}

/// Everything the spawn-point finder promises about its choice: the result
/// is an in-bounds, unoccupied, settled cell, `None` exactly when the board
/// has no empty cell; when the wall-following scan succeeds its cell
/// (settled) is returned, otherwise the pick is the nearest empty cell to
/// `prev`, ties broken by the x-then-y scan order.
pub open spec fn spawnpoint_ok(
    m: Map<HexCoord, Marble>,
    radius: int,
    prev: HexCoord,
    r: Option<HexCoord>,
) -> bool {
    &&& match r {
        Some(p) => {
            &&& in_bounds(p, radius)
            &&& !m.contains_key(p)
            &&& spec_gravity_step(m, radius, p).is_none()
        },
        None => forall|c: HexCoord| #[trigger] in_bounds(c, radius) ==> m.contains_key(c),
    }
    &&& match wall_scan(m, radius, prev, 0) {
        Some(a) => r == Some(spec_settle(m, radius, a)),
        None => match r {
            Some(p) => exists|pick: HexCoord|
                {
                    &&& #[trigger] in_bounds(pick, radius)
                    &&& !m.contains_key(pick)
                    &&& forall|c: HexCoord|
                        in_bounds(c, radius) && !m.contains_key(c) ==> #[trigger] c.spec_dist(
                            prev,
                        ) >= pick.spec_dist(prev)
                    &&& forall|c: HexCoord|
                        in_bounds(c, radius) && !m.contains_key(c) && #[trigger] c.spec_dist(prev)
                            == pick.spec_dist(prev) && c != pick ==> (c.x > pick.x || (c.x
                            == pick.x && c.y > pick.y))
                    &&& p == spec_settle(m, radius, pick)
                },
            None => true,
        },
    }
}

/// The planned next spawn cell, when set, always refers to an in-bounds,
/// currently unoccupied coordinate that is a settled (post-gravity)
/// position.
pub open spec fn planned_ok(
    m: Map<HexCoord, Marble>,
    radius: int,
    planned: Option<HexCoord>,
) -> bool {
    match planned {
        Some(p) => in_bounds(p, radius) && !m.contains_key(p) && spec_gravity_step(
            m,
            radius,
            p,
        ).is_none(),
        None => true,
    }
}

/// What executing one popped action does to the marbles, the score and the
/// rest of the queue: a cycle rotates its path and changes nothing else; a
/// color deletion filters the color out and scores one point per marble; a
/// blob clear removes every clearable component, scores
/// `clear_blobs_score`, and requeues itself at the front with a raised
/// multiplier.
pub open spec fn action_result_ok(
    a: BoardAction,
    m0: Map<HexCoord, Marble>,
    score0: u32,
    q0: Seq<BoardAction>,
    m1: Map<HexCoord, Marble>,
    score1: u32,
    q1: Seq<BoardAction>,
    cbs: int,
) -> bool {
    match a {
        BoardAction::Cycle(poses) => {
            &&& q1 == q0
            &&& score1 == score0
            &&& poses@.len() < 2 ==> m1 == m0
            &&& (poses@.len() >= 2 && poses@.no_duplicates()) ==> cycled(m0, m1, poses@)
            &&& (poses@.len() >= 2 && poses@.no_duplicates()) ==> poses@.map_values(
                |c: HexCoord| opt_at(m1, c),
            ).to_multiset() == poses@.map_values(|c: HexCoord| opt_at(m0, c)).to_multiset()
        },
        BoardAction::DeleteColor(color) => {
            &&& q1 == q0
            &&& forall|k: HexCoord| #[trigger]
                m1.contains_key(k) <==> m0.contains_key(k) && m0[k] != color
            &&& forall|k: HexCoord| #[trigger] m1.contains_key(k) ==> m1[k] == m0[k]
            &&& score1 == saturated(score0 + crate::marble_map::color_count(m0, color))
        },
        BoardAction::ClearBlobs(multiplier) => {
            if crate::blob::has_clearable_blob(m0, cbs) {
                exists|bs: Seq<Seq<HexCoord>>|
                    {
                        &&& #[trigger] blobs_found(m0, cbs, bs)
                        &&& m1 == m0.remove_keys(flat_of(bs).to_set())
                        &&& score1 == saturated(
                            score0 + clear_blobs_score(
                                flat_of(bs).len() as int,
                                multiplier as int,
                                bs.len() as int,
                            ),
                        )
                        &&& q1 == seq![
                            BoardAction::ClearBlobs(
                                (if multiplier == u32::MAX {
                                    u32::MAX
                                } else {
                                    (multiplier + 1) as u32
                                }),
                            ),
                        ] + q0
                    }
            } else {
                m1 == m0 && score1 == score0 && q1 == q0
            }
        },
    }
}

/// The spawn interval schedule: a ramp that speeds up, plateaus, slows
/// slightly, then accelerates again over a long session, divided by the
/// spawn-rate multiplier (in thousandths) and floored.
pub open spec fn spec_timer_max(tick_count: u32, s: BoardSettings) -> int {
    let out: int = if tick_count < 600 {
        60
    } else if tick_count < 1200 {
        50
    } else if tick_count < 2400 {
        40
    } else if tick_count < 3600 {
        30
    } else if tick_count < 7200 {
        40
    } else {
        let red = 40 - (tick_count as int) / 1800;
        if red < 20 {
            20
        } else {
            red
        }
    };
    out * 1000 / (s.spawn_multiplier_permille as int)
}

/// Queue front after discarding stale blob clears: a `ClearBlobs` at the
/// front is dropped for free while the board has nothing to clear.
pub open spec fn skip_stale(q: Seq<BoardAction>, m: Map<HexCoord, Marble>, cbs: int) -> Seq<
    BoardAction,
>
    decreases q.len(),
{
    if q.len() > 0 && (q[0] matches BoardAction::ClearBlobs(_)) && !crate::blob::has_clearable_blob(
        m,
        cbs,
    ) {
        skip_stale(q.drop_first(), m, cbs)
    } else {
        q
    }
}

/// A spawn placed exactly one marble of the given color: every color's
/// population is unchanged but that one, which grew by one.
pub open spec fn spawn_counts(
    m0: Map<HexCoord, Marble>,
    m1: Map<HexCoord, Marble>,
    color: Marble,
) -> bool {
    forall|col: Marble| #[trigger]
        color_count(m1, col) == color_count(m0, col) + (if col == color {
            1int
        } else {
            0int
        })
}

/// The spawn phase of a tick whose timer fired with a planned cell `sp`:
/// some color is placed (one more marble of exactly one color), gravity
/// settles the board, a unit blob clear is queued at the back, the spawn
/// timer resets, and the next spawn cell is chosen from `sp` by the
/// spawn-point finder.
pub open spec fn spawn_phase_ok(pre: BoardView, sp: HexCoord, mid: BoardView) -> bool {
    let radius = pre.settings.radius as int;
    &&& exists|color: Marble| #[trigger] spawn_counts(pre.marbles, mid.marbles, color)
    &&& (pre.settings.gravity ==> settled(mid.marbles, radius))
    &&& forall|c: HexCoord| #[trigger] mid.marbles.contains_key(c) ==> in_bounds(c, radius)
    &&& mid.queue == pre.queue.push(BoardAction::ClearBlobs(1u32))
    &&& mid.score == pre.score
    &&& mid.action_timer == pre.action_timer
    &&& mid.settings == pre.settings
    &&& mid.next_spawn_timer == 0
    &&& mid.tick_count == pre.tick_count
    &&& spawnpoint_ok(mid.marbles, radius, sp, mid.planned_next_spawn_pos)
}

/// How the spawn indicator is repositioned after an action moved marbles:
/// it is settled against the new terrain, and planned afresh if a marble
/// now occupies its resting place.
pub open spec fn replanned_ok(
    p0: Option<HexCoord>,
    m: Map<HexCoord, Marble>,
    radius: int,
    p1: Option<HexCoord>,
) -> bool {
    match p0 {
        None => p1 == None::<HexCoord>,
        Some(prev) => {
            let q = spec_settle(m, radius, prev);
            if !m.contains_key(q) {
                p1 == Some(q)
            } else {
                spawnpoint_ok(m, radius, q, p1)
            }
        },
    }
}

/// The queue phase of a tick, from the state `mid` it starts in: stale
/// blob clears at the front are discarded for free; then an empty queue
/// changes nothing, an action that is not yet due only advances the action
/// timer, and an action that falls due is executed (per
/// `action_result_ok`), the board re-settled, and the spawn indicator
/// repositioned.
pub open spec fn action_phase_ok(mid: BoardView, post: BoardView) -> bool {
    let cbs = mid.settings.clear_blob_size as int;
    let radius = mid.settings.radius as int;
    let q2 = skip_stale(mid.queue, mid.marbles, cbs);
    &&& post.settings == mid.settings
    &&& post.next_spawn_timer == mid.next_spawn_timer
    &&& (q2.len() == 0 ==> post.marbles == mid.marbles && post.score == mid.score && post.queue
        == q2 && post.action_timer == mid.action_timer && post.planned_next_spawn_pos
        == mid.planned_next_spawn_pos)
    &&& (q2.len() > 0 && mid.action_timer + 1 < q2[0].spec_time() ==> post.marbles == mid.marbles
        && post.score == mid.score && post.queue == q2 && post.action_timer == mid.action_timer
        + 1 && post.planned_next_spawn_pos == mid.planned_next_spawn_pos)
    &&& (q2.len() > 0 && mid.action_timer + 1 >= q2[0].spec_time() ==> {
        &&& post.action_timer == 0
        &&& exists|m1: Map<HexCoord, Marble>|
            {
                &&& #[trigger] action_result_ok(
                    q2[0],
                    mid.marbles,
                    mid.score,
                    q2.drop_first(),
                    m1,
                    post.score,
                    post.queue,
                    cbs,
                )
                &&& forall|col: Marble| #[trigger]
                    color_count(post.marbles, col) == color_count(m1, col)
            }
        &&& (mid.settings.gravity ==> settled(post.marbles, radius))
        &&& replanned_ok(mid.planned_next_spawn_pos, post.marbles, radius, post.planned_next_spawn_pos)
    })
}

/// The marble at a cell, if any.
pub open spec fn opt_at(m: Map<HexCoord, Marble>, c: HexCoord) -> Option<Marble> {
    if m.contains_key(c) {
        Some(m[c])
    } else {
        None
    }
}

/// Values above the score counter's range stick at its maximum.
pub open spec fn saturated(v: int) -> int {
    if v > u32::MAX as int {
        u32::MAX as int
    } else {
        v
    }
}

/// Score for clearing `n` marbles spread over `k` simultaneous blobs at
/// cascade multiplier `mult`: every marble beyond six counts double, scaled
/// by the multiplier and the number of blobs.
pub open spec fn clear_blobs_score(n: int, mult: int, k: int) -> int {
    (n + (if n > 6 {
        n - 6
    } else {
        0
    })) * mult * k
}

/// All the coordinates of a family of blobs, in order.
pub open spec fn flat_of(bs: Seq<Seq<HexCoord>>) -> Seq<HexCoord>
    decreases bs.len(),
{
    if bs.len() == 0 {
        Seq::empty()
    } else {
        flat_of(bs.drop_last()) + bs.last()
    }
}

proof fn lemma_flat_of_push(bs: Seq<Seq<HexCoord>>, b: Seq<HexCoord>)
    ensures
        flat_of(bs.push(b)) == flat_of(bs) + b,
{
    assert(bs.push(b).drop_last() =~= bs);
}

/// One cyclic shift of the marbles along a coordinate list: each cell takes
/// what the one before it held, the first takes what the last held, and
/// cells off the list keep theirs.
pub open spec fn cycled(
    m0: Map<HexCoord, Marble>,
    m1: Map<HexCoord, Marble>,
    ps: Seq<HexCoord>,
) -> bool {
    &&& opt_at(m1, ps[0]) == opt_at(m0, ps[ps.len() - 1])
    &&& forall|t: int| 1 <= t < ps.len() ==> opt_at(m1, #[trigger] ps[t]) == opt_at(m0, ps[t - 1])
    &&& forall|c: HexCoord| !ps.contains(c) ==> #[trigger] opt_at(m1, c) == opt_at(m0, c)
}

/// Executing a cycle permutes the marbles along its path: the multiset of
/// cell contents over the path's coordinates is exactly what it was, only
/// the positions rotate.
pub proof fn lemma_cycle_preserves_colors(
    m0: Map<HexCoord, Marble>,
    m1: Map<HexCoord, Marble>,
    ps: Seq<HexCoord>,
)
    requires
        ps.len() >= 1,
        cycled(m0, m1, ps),
    ensures
        ps.map_values(|c: HexCoord| opt_at(m1, c)).to_multiset() == ps.map_values(
            |c: HexCoord| opt_at(m0, c),
        ).to_multiset(),
{
    broadcast use vstd::seq_lib::lemma_multiset_commutative;
    broadcast use vstd::multiset::group_multiset_axioms;

    let a = ps.map_values(|c: HexCoord| opt_at(m0, c));
    let b = ps.map_values(|c: HexCoord| opt_at(m1, c));
    assert(b =~= seq![a.last()] + a.drop_last());
    assert(a =~= a.drop_last() + seq![a.last()]);
    assert((a.drop_last() + seq![a.last()]).to_multiset() =~= (seq![a.last()]
        + a.drop_last()).to_multiset());
}

/// Everything `find_blobs` promises, as one relation between the marble map
/// and the returned family of blobs: each listed blob is exactly one
/// clearable connected component, the blobs are disjoint, and every cell of
/// every clearable component is listed.
pub open spec fn blobs_found(m: Map<HexCoord, Marble>, cbs: int, bs: Seq<Seq<HexCoord>>) -> bool {
    &&& forall|i: int|
        0 <= i < bs.len() ==> (#[trigger] bs[i]).no_duplicates() && bs[i].len() >= cbs && bs[
            i
        ].len() >= 1 && bs[i].to_set() == crate::blob::blob_of(m, bs[i][0])
    &&& forall|i: int, j: int|
        0 <= i < j < bs.len() ==> (#[trigger] bs[i]).to_set().disjoint((#[trigger] bs[j]).to_set())
    &&& forall|x: HexCoord| #[trigger]
        crate::blob::clearable(m, x, cbs) ==> exists|i: int|
            0 <= i < bs.len() && (#[trigger] bs[i]).contains(x)
    &&& (bs.len() > 0 <==> crate::blob::has_clearable_blob(m, cbs))
}

/// Linear membership scan over a coordinate list.
fn coords_contain(v: &Vec<HexCoord>, x: &HexCoord) -> (r: bool)
    ensures
        r == v@.contains(*x),
{
    let n = v.len();
    let mut i: usize = 0;
    while i < n
        invariant
            n == v@.len(),
            i <= n,
            forall|j: int| 0 <= j < i ==> v@[j] != *x,
        decreases n - i,
    {
        if v[i] == *x {
            proof {
                assert(v@[i as int] == *x);
            }
            return true;
        }
        i += 1;
    }
    proof {
        if v@.contains(*x) {
            let j = choose|j: int| 0 <= j < v@.len() && v@[j] == *x;
            assert(false);
        }
    }
    false
}

/// On a freshly seeded board (marbles exactly on the rings beyond `pad`)
/// the cell `(pad, 0)` is free and cannot fall: its three fall candidates
/// all lie on the first seeded ring, or outside a fully empty board.
proof fn lemma_initial_spawn_settled(m: Map<HexCoord, Marble>, radius: int, pad: int)
    requires
        0 <= pad <= radius <= MAX_RADIUS as int,
        forall|c: HexCoord| #[trigger] m.contains_key(c) <==> pad < c.center_dist() <= radius,
    ensures
        planned_ok(m, radius, Some(HexCoord { x: pad as i32, y: 0 })),
{
    let p = HexCoord { x: pad as i32, y: 0 };
    assert(p.center_dist() == pad);
    assert(!m.contains_key(p));
    let g = p.spec_gravity_dir();
    let f = fall_candidate(p, 0);
    let l = fall_candidate(p, 5);
    let r = fall_candidate(p, 1);
    assert(f.center_dist() == pad + 1 && l.center_dist() == pad + 1 && r.center_dist() == pad
        + 1);
    if pad + 1 > radius {
        assert(spec_solid(m, radius, f) && spec_solid(m, radius, l) && spec_solid(m, radius, r));
    } else {
        assert(m.contains_key(f) && m.contains_key(l) && m.contains_key(r));
    }
}

/// The spec-level picture of a board.
pub struct BoardView {
    pub marbles: Map<HexCoord, Marble>,
    pub score: u32,
    pub queue: Seq<BoardAction>,
    pub action_timer: u32,
    pub next_spawn_timer: u32,
    pub planned_next_spawn_pos: Option<HexCoord>,
    pub tick_count: u32,
    pub settings: BoardSettings,
}

/// An action the board can take without leaving its invariant: every cycle
/// coordinate must lie on the board.
pub open spec fn action_wf(a: BoardAction, radius: int) -> bool {
    match a {
        BoardAction::Cycle(poses) => forall|i: int|
            0 <= i < poses@.len() ==> in_bounds(#[trigger] poses@[i], radius),
        _ => true,
    }
}

/// Board full of marbles to play on.
pub struct Board {
    marbles: MarbleMap,
    score: u32,
    action_queue: Vec<BoardAction>,
    /// Time counting up until we do the next action.
    action_timer: u32,
    /// Count up until we spawn the next marble.
    next_spawn_timer: u32,
    planned_next_spawn_pos: Option<HexCoord>,
    tick_count: u32,
    settings: BoardSettings,
}

impl View for Board {
    type V = BoardView;

    closed spec fn view(&self) -> BoardView {
        BoardView {
            marbles: self.marbles@,
            score: self.score,
            queue: self.action_queue@,
            action_timer: self.action_timer,
            next_spawn_timer: self.next_spawn_timer,
            planned_next_spawn_pos: self.planned_next_spawn_pos,
            tick_count: self.tick_count,
            settings: self.settings,
        }
    }
}

impl Board {
    /// The marble storage keeps unique keys.
    pub closed spec fn map_wf(&self) -> bool {
        self.marbles.wf()
    }

    /// The entry order of the marble storage.
    pub closed spec fn kvs(&self) -> Seq<(HexCoord, Marble)> {
        self.marbles.kvs()
    }

    /// The structural part of the board invariant: well-formed settings and
    /// storage, every marble and the planned spawn cell on the board, and
    /// every queued action sound.
    pub open spec fn wf_core(&self) -> bool {
        &&& self.map_wf()
        &&& self@.settings.wf()
        &&& forall|c: HexCoord| #[trigger]
            self@.marbles.contains_key(c) ==> in_bounds(c, self@.settings.radius as int)
        &&& match self@.planned_next_spawn_pos {
            Some(p) => in_bounds(p, self@.settings.radius as int),
            None => true,
        }
        &&& forall|i: int|
            0 <= i < self@.queue.len() ==> action_wf(
                #[trigger] self@.queue[i],
                self@.settings.radius as int,
            )
    }

    /// The planned-spawn invariant of the data model, at this board's
    /// state.  It holds at every tick boundary; inside a tick it is
    /// restored after actions move marbles.
    pub open spec fn planned_ok(&self) -> bool {
        planned_ok(self@.marbles, self@.settings.radius as int, self@.planned_next_spawn_pos)
    }

    /// The board invariant: the structural part, and both timers inside
    /// their counting ranges.
    pub open spec fn wf(&self) -> bool {
        &&& self.wf_core()
        &&& self@.action_timer <= DELETE_COLOR_TIME
        &&& self@.next_spawn_timer <= SPAWN_TIMER_BOUND
    }

    /// Create a new Board with the given settings.  There will be
    /// `border_width` rings of random marbles around the outside, each
    /// placed so that it does not complete a clearable blob, and the first
    /// spawn is planned on the innermost free ring.
    #[verifier::loop_isolation(false)]
    #[verifier::rlimit(100)]
    pub fn new(settings: BoardSettings) -> (b: Board)
        requires
            settings.wf(),
        ensures
            b.wf(),
            b@.settings == settings,
            b@.score == 0,
            b@.queue == Seq::<BoardAction>::empty(),
            b@.action_timer == 0,
            b@.next_spawn_timer == 0,
            b@.tick_count == 0,
            match b@.planned_next_spawn_pos {
                Some(p) => p.x as int == settings.radius as int - settings.border_width as int
                    && p.y == 0,
                None => false,
            },
            forall|c: HexCoord| #[trigger]
                b@.marbles.contains_key(c) <==> (settings.radius as int
                    - settings.border_width as int) < c.center_dist() <= settings.radius as int,
            !crate::blob::has_clearable_blob(b@.marbles, settings.clear_blob_size as int),
            b.planned_ok(),
    {
        let pad = settings.radius - settings.border_width;
        let r32 = settings.radius as i32;
        let ghost radius = settings.radius as int;
        let ghost cbs = settings.clear_blob_size as int;
        let mut out = Board {
            marbles: MarbleMap::new(),
            score: 0,
            action_queue: Vec::new(),
            action_timer: 0,
            next_spawn_timer: 0,
            // we're about to set this in
            planned_next_spawn_pos: Some(HexCoord::new(pad as i32, 0)),
            tick_count: 0,
            settings,
        };
        proof {
            assert(out.wf());
            assert(!crate::blob::has_clearable_blob(out@.marbles, cbs)) by {
                if crate::blob::has_clearable_blob(out@.marbles, cbs) {
                    let c = choose|c: HexCoord| crate::blob::clearable(out@.marbles, c, cbs);
                    assert(out@.marbles.contains_key(c));
                    assert(false);
                }
            }
        }
        let mut x: i32 = -r32;
        while x <= r32
            invariant
                -r32 <= x <= r32 + 1,
                out.wf(),
                out@.settings == settings,
                out@.score == 0,
                out@.queue == Seq::<BoardAction>::empty(),
                out@.action_timer == 0,
                out@.next_spawn_timer == 0,
                out@.tick_count == 0,
                out@.planned_next_spawn_pos == Some(HexCoord { x: pad as i32, y: 0 }),
                forall|c: HexCoord| #[trigger]
                    out@.marbles.contains_key(c) <==> ((pad as int) < c.center_dist() <= radius
                        && c.x < x),
                !crate::blob::has_clearable_blob(out@.marbles, cbs),
            decreases r32 + 1 - x,
        {
            let lo = if -r32 >= -x - r32 {
                -r32
            } else {
                -x - r32
            };
            let hi = if r32 <= -x + r32 {
                r32
            } else {
                -x + r32
            };
            let mut y: i32 = lo;
            while y <= hi
                invariant
                    lo <= y <= hi + 1,
                    -r32 <= x <= r32,
                    lo as int == (if -(r32 as int) >= -(x as int) - (r32 as int) {
                        -(r32 as int)
                    } else {
                        -(x as int) - (r32 as int)
                    }),
                    hi as int == (if (r32 as int) <= -(x as int) + (r32 as int) {
                        r32 as int
                    } else {
                        -(x as int) + (r32 as int)
                    }),
                    out.wf(),
                    out@.settings == settings,
                    out@.score == 0,
                    out@.queue == Seq::<BoardAction>::empty(),
                    out@.action_timer == 0,
                    out@.next_spawn_timer == 0,
                    out@.tick_count == 0,
                    out@.planned_next_spawn_pos == Some(HexCoord { x: pad as i32, y: 0 }),
                    forall|c: HexCoord| #[trigger]
                        out@.marbles.contains_key(c) <==> ((pad as int) < c.center_dist() <= radius
                            && (c.x < x || (c.x == x && c.y < y))),
                    !crate::blob::has_clearable_blob(out@.marbles, cbs),
                decreases hi + 1 - y,
            {
                let c = HexCoord::new(x, y);
                proof {
                    assert(in_bounds(c, radius));
                    lemma_bounded_coord(c, radius);
                }
                let center = HexCoord::new(0, 0);
                let d = c.distance(&center);
                if d >= 0 && (d as usize) > pad {
                    let ghost m_pre = out@.marbles;
                    let placed = out.spawn_marble(&c);
                    proof {
                        assert(placed);
                        let color = choose|color: Marble|
                            out@.marbles == #[trigger] m_pre.insert(c, color)
                                && crate::blob::blob_of(out@.marbles, c).len() < cbs;
                        assert(out@.marbles == m_pre.insert(c, color));
                        let mnew = out@.marbles;
                        assert(!crate::blob::has_clearable_blob(mnew, cbs)) by {
                            if crate::blob::has_clearable_blob(mnew, cbs) {
                                let w = choose|w: HexCoord| crate::blob::clearable(mnew, w, cbs);
                                assert(mnew.contains_key(w));
                                if crate::blob::connected(mnew, w, c) {
                                    crate::blob::lemma_same_blob(mnew, w, c);
                                    assert(crate::blob::blob_of(mnew, w).len() < cbs);
                                } else {
                                    assert(w != c) by {
                                        if w == c {
                                            crate::blob::lemma_connected_refl(mnew, c);
                                            assert(false);
                                        }
                                    }
                                    crate::blob::lemma_blob_insert_unconnected(
                                        m_pre,
                                        c,
                                        color,
                                        w,
                                    );
                                    assert(m_pre.contains_key(w));
                                    assert(!crate::blob::clearable(m_pre, w, cbs)) by {
                                        if crate::blob::clearable(m_pre, w, cbs) {
                                            assert(crate::blob::has_clearable_blob(m_pre, cbs));
                                            assert(false);
                                        }
                                    }
                                    assert(crate::blob::blob_of(mnew, w).len() < cbs);
                                }
                                assert(false);
                            }
                        }
                    }
                }
                y += 1;
            }
            proof {
                assert forall|c: HexCoord| #[trigger]
                    out@.marbles.contains_key(c) <==> ((pad as int) < c.center_dist() <= radius
                        && c.x < x + 1) by {
                    if (pad as int) < c.center_dist() <= radius && c.x == x {
                        assert(lo <= c.y <= hi);
                    }
                }
            }
            x += 1;
        }
        proof {
            assert forall|c: HexCoord| #[trigger]
                out@.marbles.contains_key(c) <==> ((pad as int) < c.center_dist() <= radius) by {
                if (pad as int) < c.center_dist() <= radius {
                    assert(c.x <= r32);
                }
            }
            lemma_initial_spawn_settled(out@.marbles, radius, pad as int);
        }
        out
    }

    /// Build a board in a chosen position: the given marbles, everything
    /// else fresh.  This is how a deterministic scenario is set up; play
    /// normally starts from `new`.
    pub fn from_marbles(settings: BoardSettings, marbles: MarbleMap) -> (b: Board)
        requires
            settings.wf(),
            marbles.wf(),
            forall|c: HexCoord| #[trigger]
                marbles@.contains_key(c) ==> in_bounds(c, settings.radius as int),
        ensures
            b.wf(),
            b@.settings == settings,
            b@.marbles == marbles@,
            b@.score == 0,
            b@.queue == Seq::<BoardAction>::empty(),
            b@.action_timer == 0,
            b@.next_spawn_timer == 0,
            b@.tick_count == 0,
            b@.planned_next_spawn_pos.is_none(),
            b.planned_ok(),
    {
        Board {
            marbles,
            score: 0,
            action_queue: Vec::new(),
            action_timer: 0,
            next_spawn_timer: 0,
            planned_next_spawn_pos: None,
            tick_count: 0,
            settings,
        }
    }

    /// Return if the coordinate lies within the board.
    pub fn is_in_bounds(&self, c: &HexCoord) -> (r: bool)
        requires
            self.wf(),
            c.in_range(),
        ensures
            r == in_bounds(*c, self@.settings.radius as int),
    {
        let center = HexCoord::new(0, 0);
        let d = c.distance(&center);
        proof {
            assert(c.spec_dist(center) == c.center_dist());
        }
        d >= 0 && (d as usize) <= self.settings.radius
    }

    /// Get if a position is inside a marble or out of bounds.
    pub fn is_solid(&self, c: &HexCoord) -> (r: bool)
        requires
            self.wf(),
            c.in_range(),
        ensures
            r == spec_solid(self@.marbles, self@.settings.radius as int, *c),
    {
        !self.is_in_bounds(c) || self.marbles.contains_key(c)
    }

    /// The player has done a thing and the board needs to update.
    pub fn push_action(&mut self, action: BoardAction)
        requires
            old(self).wf(),
            action_wf(action, old(self)@.settings.radius as int),
        ensures
            final(self).wf(),
            final(self)@ == (BoardView { queue: old(self)@.queue.push(action), ..old(self)@ }),
            final(self).planned_ok() == old(self).planned_ok(),
    {
        self.action_queue.push(action);
    }

    /// The action we're going to execute.
    pub fn next_action(&self) -> (r: Option<&BoardAction>)
        ensures
            match r {
                Some(a) => self@.queue.len() > 0 && *a == self@.queue[0],
                None => self@.queue.len() == 0,
            },
    {
        if self.action_queue.len() > 0 {
            Some(&self.action_queue[0])
        } else {
            None
        }
    }

    /// Get all the marbles in the board.
    pub fn get_marbles(&self) -> (r: &MarbleMap)
        ensures
            r@ == self@.marbles,
            r.wf() == self.map_wf(),
    {
        &self.marbles
    }

    /// Helper function to get one marble.
    pub fn get_marble(&self, pos: &HexCoord) -> (r: Option<&Marble>)
        requires
            self.wf(),
        ensures
            match r {
                Some(m) => self@.marbles.contains_key(*pos) && *m == self@.marbles[*pos],
                None => !self@.marbles.contains_key(*pos),
            },
    {
        self.marbles.get(pos)
    }

    pub fn next_spawn_point(&self) -> (r: Option<HexCoord>)
        ensures
            r == self@.planned_next_spawn_pos,
    {
        self.planned_next_spawn_pos
    }

    /// Get the board's action timer.
    pub fn action_timer(&self) -> (r: u32)
        ensures
            r == self@.action_timer,
    {
        self.action_timer
    }

    /// Get the board's next spawn timer.
    pub fn next_spawn_timer(&self) -> (r: u32)
        ensures
            r == self@.next_spawn_timer,
    {
        self.next_spawn_timer
    }

    /// Get the board's radius.
    pub fn radius(&self) -> (r: usize)
        ensures
            r == self@.settings.radius,
    {
        self.settings.radius
    }

    /// Get the board's settings.
    pub fn settings(&self) -> (r: &BoardSettings)
        ensures
            *r == self@.settings,
    {
        &self.settings
    }

    /// Get the board's score.
    pub fn score(&self) -> (r: u32)
        ensures
            r == self@.score,
    {
        self.score
    }

    /// Find the place the coordinate falls to under the local rule, or
    /// `None` if it cannot fall.
    #[verifier::rlimit(100)]
    fn gravity_step(&self, c: &HexCoord) -> (r: Option<HexCoord>)
        requires
            self.wf(),
            c.center_dist() <= self@.settings.radius as int + 1,
        ensures
            r == spec_gravity_step(self@.marbles, self@.settings.radius as int, *c),
            match r {
                Some(t) => in_bounds(t, self@.settings.radius as int)
                    && !self@.marbles.contains_key(t),
                None => true,
            },
    {
        proof {
            lemma_bounded_coord(*c, self@.settings.radius as int + 1);
        }
        let gravity = self.gravity_dir_of(c);
        let forward = c.step(gravity);
        let left = c.step(gravity.rotate(5));
        let right = c.step(gravity.rotate(1));
        proof {
            assert(c.spec_gravity_dir().spec_rotate(0) == c.spec_gravity_dir());
            assert(forward == fall_candidate(*c, 0));
            assert(left == fall_candidate(*c, 5));
            assert(right == fall_candidate(*c, 1));
            lemma_bounded_coord(forward, self@.settings.radius as int + 2);
            lemma_bounded_coord(left, self@.settings.radius as int + 2);
            lemma_bounded_coord(right, self@.settings.radius as int + 2);
        }
        let s_forward = self.is_solid(&forward);
        let s_left = self.is_solid(&left);
        let s_right = self.is_solid(&right);
        let solids: u32 = (if s_forward {
            1
        } else {
            0
        }) + (if s_left {
            1
        } else {
            0
        }) + (if s_right {
            1
        } else {
            0
        });
        if solids < 2 {
            if !s_forward {
                Some(forward)
            } else if !s_left {
                Some(left)
            } else {
                Some(right)
            }
        } else {
            None
        }
    }

    /// The gravity direction of a cell, bounded-coordinate wrapper.
    fn gravity_dir_of(&self, c: &HexCoord) -> (d: HexDir)
        requires
            c.center_dist() <= MAX_RADIUS as int + 2,
        ensures
            d == c.spec_gravity_dir(),
    {
        proof {
            lemma_bounded_coord(*c, c.center_dist());
        }
        c.gravity_dir()
    }

    /// Get all coordinates connected by color to the given coordinate (an
    /// empty list if the cell holds no marble): exactly the cell's blob,
    /// each coordinate once, the start cell first.
    #[verifier::rlimit(100)]
    fn floodfill(&self, c: &HexCoord) -> (blob: Vec<HexCoord>)
        requires
            self.wf(),
        ensures
            !self@.marbles.contains_key(*c) ==> blob@.len() == 0,
            self@.marbles.contains_key(*c) ==> blob@.to_set() == crate::blob::blob_of(
                self@.marbles,
                *c,
            ) && blob@.no_duplicates() && blob@.len() >= 1 && blob@[0] == *c && blob@.len()
                == crate::blob::blob_of(self@.marbles, *c).len(),
    {
        let ghost m = self@.marbles;
        let ghost radius = self@.settings.radius as int;
        let color = match self.marbles.get(c) {
            Some(it) => *it,
            None => {
                return Vec::new();
            },
        };
        proof {
            crate::marble_map::lemma_seq_to_map_len(self.marbles.kvs());
        }
        let mut todo: Vec<HexCoord> = Vec::new();
        todo.push(*c);
        let mut blob: Vec<HexCoord> = Vec::new();
        proof {
            assert(todo@[0] == *c);
            assert(todo@.contains(*c));
            assert(m.contains_key(*c));
            assert(in_bounds(*c, radius));
            crate::blob::lemma_connected_refl(m, *c);
        }
        while todo.len() > 0
            invariant
                self.wf(),
                m == self@.marbles,
                radius == self@.settings.radius as int,
                m.contains_key(*c),
                m[*c] == color,
                m.dom().finite(),
                blob@.no_duplicates(),
                forall|j: int|
                    0 <= j < blob@.len() ==> m.contains_key(#[trigger] blob@[j]) && m[blob@[j]]
                        == color && crate::blob::connected(m, *c, blob@[j]),
                blob@.len() >= 1 ==> blob@[0] == *c,
                blob@.len() == 0 ==> forall|j: int| 0 <= j < todo@.len() ==> todo@[j] == *c,
                forall|j: int|
                    0 <= j < todo@.len() ==> (#[trigger] todo@[j]).center_dist() <= radius + 1,
                forall|j: int|
                    0 <= j < todo@.len() ==> (m.contains_key(#[trigger] todo@[j]) && m[todo@[j]]
                        == color ==> crate::blob::connected(m, *c, todo@[j])),
                forall|j: int, k: int|
                    0 <= j < blob@.len() && 0 <= k < 6 ==> {
                        let n = (#[trigger] blob@[j]).spec_step(#[trigger] dir_of(k));
                        !(m.contains_key(n) && m[n] == color) || blob@.contains(n)
                            || todo@.contains(n)
                    },
                blob@.contains(*c) || todo@.contains(*c),
                blob@.len() <= m.dom().len(),
            decreases m.dom().len() - blob@.len(), todo@.len(),
        {
            let ghost todo_entry = todo@;
            let ghost blob_entry = blob@;
            let x = match todo.pop() {
                Some(x) => x,
                None => {
                    proof {
                        assert(false);
                    }
                    *c
                },
            };
            proof {
                assert(x == todo_entry.last());
                assert(todo@ =~= todo_entry.drop_last());
                assert(todo_entry =~= todo@.push(x));
            }
            let is_new = !coords_contain(&blob, &x);
            let matches_color = match self.marbles.get(&x) {
                Some(mm) => *mm == color,
                None => false,
            };
            if is_new && matches_color {
                proof {
                    lemma_bounded_coord(x, radius + 1);
                    assert(in_bounds(x, radius));
                    assert(crate::blob::connected(m, *c, x));
                }
                blob.push(x);
                proof {
                    assert(blob@ == blob_entry.push(x));
                    assert(blob@.no_duplicates());
                    blob@.unique_seq_to_set();
                    assert forall|y: HexCoord| blob@.to_set().contains(y) implies m.dom().contains(
                        y,
                    ) by {
                        let j = choose|j: int| 0 <= j < blob@.len() && blob@[j] == y;
                        assert(m.contains_key(blob@[j]));
                    }
                    vstd::set_lib::lemma_len_subset(blob@.to_set(), m.dom());
                    assert(blob@.len() <= m.dom().len());
                    if blob_entry.len() == 0 {
                        assert(x == *c);
                    }
                }
                let n0 = x.step(HexDir::YZ);
                let n1 = x.step(HexDir::XZ);
                let n2 = x.step(HexDir::XY);
                let n3 = x.step(HexDir::ZY);
                let n4 = x.step(HexDir::ZX);
                let n5 = x.step(HexDir::YX);
                todo.push(n0);
                todo.push(n1);
                todo.push(n2);
                todo.push(n3);
                todo.push(n4);
                todo.push(n5);
                proof {
                    let base = todo_entry.drop_last();
                    assert(todo@.len() == base.len() + 6);
                    assert(forall|j: int| 0 <= j < base.len() ==> todo@[j] == base[j]);
                    assert(todo@[base.len() as int + 0] == n0);
                    assert(todo@[base.len() as int + 1] == n1);
                    assert(todo@[base.len() as int + 2] == n2);
                    assert(todo@[base.len() as int + 3] == n3);
                    assert(todo@[base.len() as int + 4] == n4);
                    assert(todo@[base.len() as int + 5] == n5);
                    assert forall|j: int|
                        0 <= j < todo@.len() implies (#[trigger] todo@[j]).center_dist() <= radius
                        + 1 by {
                        if j >= base.len() {
                            assert(x.center_dist() <= radius);
                        }
                    }
                    assert forall|j: int|
                        0 <= j < todo@.len() implies (m.contains_key(#[trigger] todo@[j])
                        && m[todo@[j]] == color ==> crate::blob::connected(m, *c, todo@[j])) by {
                        if j >= base.len() && m.contains_key(todo@[j]) && m[todo@[j]] == color {
                            assert(x.spec_adjacent(todo@[j]));
                            crate::blob::lemma_connected_step(m, *c, x, todo@[j]);
                        }
                    }
                    assert forall|j: int, k: int|
                        0 <= j < blob@.len() && 0 <= k < 6 implies {
                        let n = (#[trigger] blob@[j]).spec_step(#[trigger] dir_of(k));
                        !(m.contains_key(n) && m[n] == color) || blob@.contains(n)
                            || todo@.contains(n)
                    } by {
                        let n = (blob@[j]).spec_step(dir_of(k));
                        if m.contains_key(n) && m[n] == color {
                            if j < blob@.len() - 1 {
                                assert(blob_entry[j] == blob@[j]);
                                assert(!(m.contains_key(n) && m[n] == color)
                                    || blob_entry.contains(n) || todo_entry.contains(n));
                                if blob_entry.contains(n) {
                                    let jj = choose|jj: int|
                                        0 <= jj < blob_entry.len() && blob_entry[jj] == n;
                                    assert(blob@[jj] == n);
                                } else if todo_entry.contains(n) {
                                    let jj = choose|jj: int|
                                        0 <= jj < todo_entry.len() && todo_entry[jj] == n;
                                    if jj < base.len() {
                                        assert(todo@[jj] == n);
                                    } else {
                                        assert(n == x);
                                        assert(blob@[blob@.len() - 1] == x);
                                    }
                                }
                            } else {
                                assert(blob@[j] == x);
                                if k == 0 {
                                    assert(todo@[base.len() as int + 0] == n);
                                } else if k == 1 {
                                    assert(todo@[base.len() as int + 1] == n);
                                } else if k == 2 {
                                    assert(todo@[base.len() as int + 2] == n);
                                } else if k == 3 {
                                    assert(todo@[base.len() as int + 3] == n);
                                } else if k == 4 {
                                    assert(todo@[base.len() as int + 4] == n);
                                } else {
                                    assert(todo@[base.len() as int + 5] == n);
                                }
                            }
                        }
                    }
                    assert(blob@.contains(*c)) by {
                        if blob_entry.len() == 0 {
                            assert(blob@[0] == *c);
                        } else {
                            assert(blob_entry[0] == *c);
                            assert(blob@[0] == *c);
                        }
                    }
                }
            } else {
                proof {
                    assert(blob@.contains(*c) || todo@.contains(*c)) by {
                        if !blob_entry.contains(*c) {
                            let jj = choose|jj: int|
                                0 <= jj < todo_entry.len() && todo_entry[jj] == *c;
                            if jj < todo@.len() {
                                assert(todo@[jj] == *c);
                            } else {
                                assert(x == *c);
                                assert(m.contains_key(x) && m[x] == color);
                                assert(blob_entry.contains(x));
                                assert(false);
                            }
                        }
                    }
                }
            }
        }
        proof {
            assert(blob@.contains(*c));
            assert(blob@[0] == *c) by {
                let j = choose|j: int| 0 <= j < blob@.len() && blob@[j] == *c;
            }
            blob@.unique_seq_to_set();
            let bset = blob@.to_set();
            assert forall|x: HexCoord, n: HexCoord|
                #![trigger bset.contains(x), x.spec_adjacent(n)]
                bset.contains(x) && x.spec_adjacent(n) && m.contains_key(n) && m[n]
                    == m[*c] implies bset.contains(n) by {
                let j = choose|j: int| 0 <= j < blob@.len() && blob@[j] == x;
                lemma_bounded_coord(x, radius);
                crate::hex::lemma_adjacent_iff_step(x, n);
                let k = choose|k: int| 0 <= k < 6 && n == x.spec_step(#[trigger] dir_of(k));
                assert(blob@.contains(n) || todo@.contains(n));
                assert(todo@.len() == 0);
            }
            crate::blob::lemma_blob_in_closed_set(m, *c, bset);
            assert forall|x: HexCoord| bset.contains(x) implies crate::blob::blob_of(
                m,
                *c,
            ).contains(x) by {
                let j = choose|j: int| 0 <= j < blob@.len() && blob@[j] == x;
            }
            assert(bset =~= crate::blob::blob_of(m, *c));
        }
        blob
    }

    /// Find all the blobs of marbles with size at least
    /// `clear_blob_size`: exactly the clearable connected components.
    #[verifier::loop_isolation(false)]
    #[verifier::rlimit(100)]
    pub fn find_blobs(&self) -> (out: Vec<Vec<HexCoord>>)
        requires
            self.wf(),
        ensures
            blobs_found(
                self@.marbles,
                self@.settings.clear_blob_size as int,
                out@.map_values(|v: Vec<HexCoord>| v@),
            ),
    {
        let ghost m = self@.marbles;
        let ghost cbs = self@.settings.clear_blob_size as int;
        let keys = self.marbles.keys();
        let ghost kvs0 = self.marbles.kvs();
        let n = keys.len();
        proof {
            crate::marble_map::lemma_seq_to_map_len(kvs0);
            assert forall|j: int| 0 <= j < n implies m.contains_key(#[trigger] keys@[j]) by {
                crate::marble_map::lemma_seq_to_map_index(kvs0, j);
            }
        }
        let mut seen: Vec<HexCoord> = Vec::new();
        let mut out: Vec<Vec<HexCoord>> = Vec::new();
        let mut i: usize = 0;
        while i < n
            invariant
                i <= n,
                forall|j: int| 0 <= j < seen@.len() ==> m.contains_key(#[trigger] seen@[j]),
                forall|x: HexCoord, y: HexCoord|
                    #![trigger seen@.contains(x), crate::blob::connected(m, x, y)]
                    seen@.contains(x) && crate::blob::connected(m, x, y) ==> seen@.contains(y),
                forall|j: int| 0 <= j < i ==> seen@.contains(#[trigger] keys@[j]),
                forall|x: HexCoord| #[trigger]
                    seen@.contains(x) && crate::blob::clearable(m, x, cbs) ==> exists|b: int|
                        0 <= b < out@.len() && (#[trigger] out@[b])@.contains(x),
                forall|b: int|
                    0 <= b < out@.len() ==> (#[trigger] out@[b])@.no_duplicates() && out@[b]@.len()
                        >= cbs && out@[b]@.len() >= 1 && out@[b]@.to_set()
                        == crate::blob::blob_of(m, out@[b]@[0]),
                forall|b: int, j: int|
                    0 <= b < out@.len() && 0 <= j < out@[b]@.len() ==> seen@.contains(
                        #[trigger] out@[b]@[j],
                    ),
                forall|a: int, b: int|
                    0 <= a < b < out@.len() ==> (#[trigger] out@[a])@.to_set().disjoint(
                        (#[trigger] out@[b])@.to_set(),
                    ),
            decreases n - i,
        {
            let key = keys[i];
            if !coords_contain(&seen, &key) {
                let ghost seen0 = seen@;
                let blob = self.floodfill(&key);
                proof {
                    assert(m.contains_key(key));
                    assert(blob@.to_set() == crate::blob::blob_of(m, key));
                    assert(blob@[0] == key);
                    blob@.unique_seq_to_set();
                    // the new blob is untouched territory
                    assert forall|j: int| 0 <= j < blob@.len() implies !seen0.contains(
                        #[trigger] blob@[j],
                    ) by {
                        if seen0.contains(blob@[j]) {
                            assert(blob@.contains(blob@[j]));
                            assert(blob@.to_set().contains(blob@[j]));
                            assert(crate::blob::connected(m, key, blob@[j]));
                            crate::blob::lemma_connected_symm(m, key, blob@[j]);
                            assert(seen0.contains(key));
                            assert(false);
                        }
                    }
                }
                let big = blob.len() >= self.settings.clear_blob_size;
                // record the blob before filing its cells as seen
                let mut j: usize = 0;
                let bn = blob.len();
                while j < bn
                    invariant
                        j <= bn,
                        bn == blob@.len(),
                        seen@ == seen0 + blob@.take(j as int),
                    decreases bn - j,
                {
                    proof {
                        assert(blob@.take(j as int).push(blob@[j as int]) =~= blob@.take(
                            j + 1,
                        ));
                        assert((seen0 + blob@.take(j as int)).push(blob@[j as int]) =~= seen0
                            + blob@.take(j + 1));
                    }
                    seen.push(blob[j]);
                    j += 1;
                }
                proof {
                    assert(seen@ =~= seen0 + blob@);
                }
                let ghost out0 = out@;
                if big {
                    out.push(blob);
                }
                proof {
                    let bset = crate::blob::blob_of(m, key);
                    let newb = out@.len() - 1;
                    // every fact of the invariant, re-established
                    assert forall|j2: int| 0 <= j2 < seen@.len() implies m.contains_key(
                        #[trigger] seen@[j2],
                    ) by {
                        if j2 >= seen0.len() {
                            assert(seen@[j2] == blob@[j2 - seen0.len()]);
                            assert(blob@.contains(seen@[j2]));
                            assert(blob@.to_set().contains(seen@[j2]));
                            crate::blob::lemma_connected_occupied(m, key, seen@[j2]);
                        }
                    }
                    assert forall|x: HexCoord, y: HexCoord|
                        #![trigger seen@.contains(x), crate::blob::connected(m, x, y)]
                        seen@.contains(x) && crate::blob::connected(m, x, y) implies seen@.contains(
                        y,
                    ) by {
                        let jx = choose|jx: int| 0 <= jx < seen@.len() && seen@[jx] == x;
                        if jx < seen0.len() {
                            assert(seen0[jx] == x);
                            assert(seen0.contains(x));
                            assert(seen0.contains(y));
                            let jy = choose|jy: int| 0 <= jy < seen0.len() && seen0[jy] == y;
                            assert(seen@[jy] == y);
                        } else {
                            assert(blob@[jx - seen0.len()] == x);
                            assert(bset.contains(x));
                            assert(crate::blob::connected(m, key, x));
                            crate::blob::lemma_connected_trans(m, key, x, y);
                            assert(bset.contains(y));
                            let jy = choose|jy: int| 0 <= jy < blob@.len() && blob@[jy] == y;
                            assert(seen@[seen0.len() as int + jy] == y);
                        }
                    }
                    assert forall|j2: int| 0 <= j2 < i + 1 implies seen@.contains(
                        #[trigger] keys@[j2],
                    ) by {
                        if j2 < i {
                            assert(seen0.contains(keys@[j2]));
                            let jj = choose|jj: int| 0 <= jj < seen0.len() && seen0[jj] == keys@[j2];
                            assert(seen@[jj] == keys@[j2]);
                        } else {
                            assert(blob@[0] == key);
                            assert(seen@[seen0.len() as int] == key);
                        }
                    }
                    assert forall|x: HexCoord| #[trigger]
                        seen@.contains(x) && crate::blob::clearable(m, x, cbs) implies exists|
                        b: int,
                    |
                        0 <= b < out@.len() && (#[trigger] out@[b])@.contains(x) by {
                        let jx = choose|jx: int| 0 <= jx < seen@.len() && seen@[jx] == x;
                        if jx < seen0.len() {
                            assert(seen0.contains(x));
                            let b = choose|b: int|
                                0 <= b < out0.len() && (#[trigger] out0[b])@.contains(x);
                            assert(out@[b] == out0[b]);
                            assert((out@[b])@.contains(x));
                        } else {
                            assert(blob@[jx - seen0.len()] == x);
                            assert(bset.contains(x));
                            crate::blob::lemma_same_blob(m, key, x);
                            assert(crate::blob::blob_of(m, x) == bset);
                            assert(blob@.len() == bset.len());
                            assert(bset.len() >= cbs);
                            assert(big);
                            assert((out@[newb])@.contains(x));
                        }
                    }
                    assert forall|b: int, j2: int|
                        0 <= b < out@.len() && 0 <= j2 < out@[b]@.len() implies seen@.contains(
                        #[trigger] out@[b]@[j2],
                    ) by {
                        if big && b == out@.len() - 1 {
                            assert(out@[b]@ == blob@);
                            assert(seen@[seen0.len() as int + j2] == blob@[j2]);
                        } else {
                            assert(out@[b] == out0[b]);
                            assert(seen0.contains(out@[b]@[j2]));
                            let jj = choose|jj: int|
                                0 <= jj < seen0.len() && seen0[jj] == out@[b]@[j2];
                            assert(seen@[jj] == out@[b]@[j2]);
                        }
                    }
                    assert forall|a: int, b: int|
                        0 <= a < b < out@.len() implies (#[trigger] out@[a])@.to_set().disjoint(
                        (#[trigger] out@[b])@.to_set(),
                    ) by {
                        if big && b == out@.len() - 1 {
                            assert(out@[a] == out0[a]);
                            assert(out@[b]@ == blob@);
                            assert forall|y: HexCoord|
                                (out@[a])@.to_set().contains(y) implies !(out@[b])@.to_set(
                            ).contains(y) by {
                                if (out@[b])@.to_set().contains(y) {
                                    let jy = choose|jy: int|
                                        0 <= jy < blob@.len() && blob@[jy] == y;
                                    assert(!seen0.contains(y));
                                    let ja = choose|ja: int|
                                        0 <= ja < (out0[a])@.len() && (out0[a])@[ja] == y;
                                    assert(seen0.contains(y));
                                    assert(false);
                                }
                            }
                        } else {
                            assert(out@[a] == out0[a] && out@[b] == out0[b]);
                        }
                    }
                }
            } else {
                proof {
                    assert(seen@.contains(keys@[i as int]));
                }
            }
            i += 1;
        }
        proof {
            let bs = out@.map_values(|v: Vec<HexCoord>| v@);
            assert(bs.len() == out@.len());
            assert(forall|b: int| 0 <= b < bs.len() ==> bs[b] == (#[trigger] out@[b])@);
            assert forall|x: HexCoord| #[trigger]
                crate::blob::clearable(m, x, cbs) implies exists|b: int|
                0 <= b < bs.len() && (#[trigger] bs[b]).contains(x) by {
                crate::marble_map::lemma_seq_to_map_contains(kvs0, x);
                let j = choose|j: int| 0 <= j < kvs0.len() && (#[trigger] kvs0[j]).0 == x;
                assert(keys@[j] == x);
                assert(seen@.contains(x));
                let b = choose|b: int| 0 <= b < out@.len() && (#[trigger] out@[b])@.contains(x);
                assert(bs[b].contains(x));
            }
            if out@.len() > 0 {
                let root = (out@[0])@[0];
                assert((out@[0])@.to_set() == crate::blob::blob_of(m, root));
                assert((out@[0])@.to_set().contains(root)) by {
                    assert((out@[0])@.contains(root));
                }
                crate::blob::lemma_connected_occupied(m, root, root);
                (out@[0])@.unique_seq_to_set();
                assert(crate::blob::clearable(m, root, cbs));
                assert(crate::blob::has_clearable_blob(m, cbs));
            }
            if crate::blob::has_clearable_blob(m, cbs) {
                let x = choose|x: HexCoord| crate::blob::clearable(m, x, cbs);
                assert(bs.len() > 0);
            }
        }
        out
    }

    /// Spawn a new random marble at the given position.  Won't clobber
    /// existing marbles or form blobs big enough to score; it retries with
    /// the next color in the rotation until the placement is safe, which
    /// must happen within seven colors because the cell has only six
    /// neighbors.  Returns `false` exactly when the cell is out of bounds
    /// or occupied.
    #[verifier::loop_isolation(false)]
    #[verifier::rlimit(100)]
    fn spawn_marble(&mut self, c: &HexCoord) -> (ok: bool)
        requires
            old(self).wf(),
            c.in_range(),
        ensures
            final(self).wf(),
            final(self)@ == (BoardView { marbles: final(self)@.marbles, ..old(self)@ }),
            ok == (in_bounds(*c, old(self)@.settings.radius as int) && !old(
                self,
            )@.marbles.contains_key(*c)),
            ok ==> exists|color: Marble|
                final(self)@.marbles == #[trigger] old(self)@.marbles.insert(*c, color)
                    && crate::blob::blob_of(final(self)@.marbles, *c).len() < old(
                    self,
                )@.settings.clear_blob_size as int,
            !ok ==> final(self)@.marbles == old(self)@.marbles,
    {
        let ghost radius = self@.settings.radius as int;
        let ghost cbs = self@.settings.clear_blob_size as int;
        if !self.is_in_bounds(c) || self.marbles.contains_key(c) {
            return false;
        }
        let ghost m0 = self@.marbles;
        let mut marble = Marble::random(self.settings.marble_color_count);
        let ghost i0 = marble.spec_index();
        let mut tries: u32 = 0;
        let ghost mut failed: Seq<(Marble, HexCoord)> = Seq::empty();
        while tries < 7
            invariant
                0 <= i0 < 7,
                tries <= 7,
                failed.len() == tries,
                marble.spec_index() == (i0 + tries) % 7,
                self.wf(),
                self@ == (BoardView { marbles: self@.marbles, ..old(self)@ }),
                tries == 0 ==> self@.marbles == m0,
                tries >= 1 ==> self@.marbles == m0.insert(*c, (failed[tries as int - 1]).0),
                forall|t: int|
                    0 <= t < tries ==> {
                        &&& c.spec_adjacent((#[trigger] failed[t]).1)
                        &&& m0.contains_key(failed[t].1)
                        &&& m0[failed[t].1] == failed[t].0
                        &&& (failed[t].0).spec_index() == (i0 + t) % 7
                    },
            decreases 7 - tries,
        {
            self.marbles.insert(*c, marble);
            proof {
                assert(self@.marbles =~= m0.insert(*c, marble));
            }
            let blob = self.floodfill(c);
            if blob.len() < self.settings.clear_blob_size {
                proof {
                    assert(self@.marbles == m0.insert(*c, marble));
                }
                return true;
            }
            proof {
                let mc = self@.marbles;
                assert(crate::blob::blob_of(mc, *c).len() >= cbs);
                assert(cbs >= 2);
                if forall|n: HexCoord|
                    c.spec_adjacent(n) ==> !(mc.contains_key(n) && mc[n] == mc[*c]) {
                    crate::blob::lemma_isolated_blob(mc, *c);
                    assert(crate::blob::blob_of(mc, *c) =~= Set::<HexCoord>::empty().insert(*c));
                    assert(crate::blob::blob_of(mc, *c).len() == 1);
                    assert(false);
                }
                let n = choose|n: HexCoord|
                    c.spec_adjacent(n) && mc.contains_key(n) && mc[n] == mc[*c];
                assert(n != *c);
                assert(m0.contains_key(n) && m0[n] == marble);
                failed = failed.push((marble, n));
            }
            marble = marble.another();
            tries += 1;
        }
        proof {
            lemma_seven_neighbors_collide(*c, failed);
            let (t1, t2) = choose|t1: int, t2: int|
                0 <= t1 < t2 < 7 && (#[trigger] failed[t1]).1 == (#[trigger] failed[t2]).1;
            assert((failed[t1]).0 == (failed[t2]).0);
            assert(((failed[t1]).0).spec_index() == (i0 + t1) % 7);
            assert(((failed[t2]).0).spec_index() == (i0 + t2) % 7);
            assert(false);
        }
        false
    }

    /// The current spawn interval: tiered by how long the session has run,
    /// then divided by the spawn-rate multiplier.
    fn timer_max(&self) -> (r: u32)
        requires
            self.wf(),
        ensures
            r == spec_timer_max(self@.tick_count, self@.settings),
            r <= SPAWN_TIMER_BOUND,
    {
        let t = self.tick_count;
        let out: u32 = if t < 600 {
            60
        } else if t < 1200 {
            50
        } else if t < 2400 {
            40
        } else if t < 3600 {
            30
        } else if t < 7200 {
            40
        } else {
            let red = t / 1800;
            if red >= 20 {
                20
            } else {
                let v = 40 - red;
                if v < 20 {
                    20
                } else {
                    v
                }
            }
        };
        let scaled = ((out as u64) * 1000) / (self.settings.spawn_multiplier_permille as u64);
        scaled as u32
    }

    /// Run one frame of the board.  Returns `true` exactly when the spawn
    /// timer fires with no planned spawn cell left: the session is over.
    ///
    /// A tick whose spawn timer fires places a marble on the planned cell,
    /// settles the board, queues a unit blob clear and plans the next spawn
    /// (`spawn_phase_ok`); the queue then runs (`action_phase_ok`): stale
    /// blob clears are discarded for free, a not-yet-due action only
    /// advances the action timer, and a due action is executed, the board
    /// re-settled, and the spawn indicator repositioned.
    #[verifier::loop_isolation(false)]
    #[verifier::rlimit(100)]
    pub fn tick(&mut self) -> (died: bool)
        requires
            old(self).wf(),
            old(self).planned_ok(),
        ensures
            final(self).wf(),
            final(self).planned_ok(),
            final(self)@.settings == old(self)@.settings,
            final(self)@.score >= old(self)@.score,
            died == (old(self)@.next_spawn_timer + 1 >= spec_timer_max(
                old(self)@.tick_count,
                old(self)@.settings,
            ) && old(self)@.planned_next_spawn_pos.is_none()),
            died ==> final(self)@ == (BoardView { next_spawn_timer: 0u32, ..old(self)@ }),
            !died ==> final(self)@.tick_count == (if old(self)@.tick_count == u32::MAX {
                u32::MAX
            } else {
                (old(self)@.tick_count + 1) as u32
            }),
            (!died && old(self)@.next_spawn_timer + 1 >= spec_timer_max(
                old(self)@.tick_count,
                old(self)@.settings,
            )) ==> final(self)@.next_spawn_timer == 0 && (old(self)@.settings.gravity
                ==> settled(final(self)@.marbles, old(self)@.settings.radius as int)),
            (!died && old(self)@.next_spawn_timer + 1 >= spec_timer_max(
                old(self)@.tick_count,
                old(self)@.settings,
            )) ==> match old(self)@.planned_next_spawn_pos {
                Some(sp) => exists|mid: BoardView|
                    #[trigger] spawn_phase_ok(old(self)@, sp, mid) && action_phase_ok(
                        mid,
                        final(self)@,
                    ),
                None => false,
            },
            (old(self)@.next_spawn_timer + 1 < spec_timer_max(
                old(self)@.tick_count,
                old(self)@.settings,
            )) ==> action_phase_ok(
                BoardView {
                    next_spawn_timer: (old(self)@.next_spawn_timer + 1) as u32,
                    ..old(self)@
                },
                final(self)@,
            ),
    {
        let ghost radius = self@.settings.radius as int;
        let ghost cbs = self@.settings.clear_blob_size as int;
        let tmax = self.timer_max();
        self.next_spawn_timer = self.next_spawn_timer + 1;
        if self.next_spawn_timer >= tmax {
            self.next_spawn_timer = 0;
            match self.planned_next_spawn_pos {
                Some(sp) => {
                    proof {
                        lemma_bounded_coord(sp, radius);
                        crate::marble_map::lemma_seq_to_map_len(self.marbles.kvs());
                    }
                    let ghost m_pre = self@.marbles;
                    let placed = self.spawn_marble(&sp);
                    proof {
                        assert(placed);
                    }
                    let ghost spawn_color = choose|color: Marble|
                        self@.marbles == #[trigger] m_pre.insert(sp, color)
                            && crate::blob::blob_of(self@.marbles, sp).len() < cbs;
                    proof {
                        assert forall|col: Marble| #[trigger]
                            color_count(self@.marbles, col) == color_count(m_pre, col) + (if col
                                == spawn_color {
                                1int
                            } else {
                                0int
                            }) by {
                            crate::marble_map::lemma_color_count_insert_fresh(
                                m_pre,
                                sp,
                                spawn_color,
                                col,
                            );
                        }
                        assert(spawn_counts(m_pre, self@.marbles, spawn_color));
                    }
                    self.gravitate();
                    proof {
                        assert(spawn_counts(m_pre, self@.marbles, spawn_color));
                    }
                    self.action_queue.push(BoardAction::ClearBlobs(1));
                    self.planned_next_spawn_pos = self.find_next_spawnpoint(sp);
                    proof {
                        assert(spawn_phase_ok(old(self)@, sp, self@));
                    }
                },
                None => {
                    // oh no we couldn't find a place to be
                    return true;
                },
            }
        }
        let ghost m_q = self@.marbles;
        let ghost q0 = self@.queue;
        let ghost view_q = self@;
        proof {
            assert(planned_ok(view_q.marbles, radius, view_q.planned_next_spawn_pos));
        }
        let mut done = false;
        let mut do_action = false;
        let ghost mut exec_m1: Map<HexCoord, Marble> = Map::empty();
        while !done
            invariant
                self.wf_core(),
                self@.next_spawn_timer <= SPAWN_TIMER_BOUND,
                self@.action_timer <= DELETE_COLOR_TIME + 1,
                self@ == (BoardView { queue: self@.queue, action_timer: self@.action_timer, ..view_q }),
                skip_stale(self@.queue, m_q, cbs) == skip_stale(q0, m_q, cbs),
                !done ==> self@.action_timer == view_q.action_timer,
                !done ==> !do_action,
                view_q.action_timer <= DELETE_COLOR_TIME,
                done ==> {
                    let q2 = skip_stale(q0, m_q, cbs);
                    &&& (q2.len() == 0 ==> !do_action && self@.queue == q2 && self@.action_timer
                        == view_q.action_timer)
                    &&& (q2.len() > 0 ==> self@.queue == q2 && self@.action_timer
                        == view_q.action_timer + 1 && do_action == (view_q.action_timer + 1
                        >= q2[0].spec_time()))
                },
            decreases 2 * self@.queue.len() + (if done {
                0int
            } else {
                1int
            }),
        {
            if self.action_queue.len() == 0 {
                proof {
                    assert(skip_stale(self@.queue, m_q, cbs) == self@.queue);
                }
                done = true;
            } else {
                let is_clear = matches!(self.action_queue[0], BoardAction::ClearBlobs(_));
                let is_stale = if is_clear {
                    self.find_blobs().len() == 0
                } else {
                    false
                };
                if is_stale {
                    let ghost qpre = self@.queue;
                    let _ = self.action_queue.remove(0);
                    proof {
                        assert(self@.queue =~= qpre.drop_first());
                        assert(skip_stale(qpre, m_q, cbs) == skip_stale(qpre.drop_first(), m_q, cbs));
                    }
                } else {
                    proof {
                        assert(skip_stale(self@.queue, m_q, cbs) == self@.queue);
                    }
                    self.action_timer = self.action_timer + 1;
                    let t = self.action_queue[0].time();
                    do_action = self.action_timer >= t;
                    done = true;
                }
            }
        }
        let ghost q2 = skip_stale(q0, m_q, cbs);
        if do_action {
            let action = self.action_queue.remove(0);
            proof {
                assert(self@.queue =~= q2.drop_first());
                assert(action == q2[0]);
            }
            self.action_timer = 0;
            self.execute_action(action);
            proof {
                exec_m1 = self@.marbles;
                assert(action_result_ok(
                    q2[0],
                    view_q.marbles,
                    view_q.score,
                    q2.drop_first(),
                    exec_m1,
                    self@.score,
                    self@.queue,
                    cbs,
                ));
            }
            self.gravitate();
            // This action likely moved some marbles, so let's reposition
            // the spawnpoint
            match self.planned_next_spawn_pos {
                Some(next_sp) => {
                    let shunted = self.gravity_all(next_sp);
                    if self.marbles.contains_key(&shunted) {
                        // the action buried the spawn indicator: plan afresh
                        self.planned_next_spawn_pos = self.find_next_spawnpoint(shunted);
                    } else {
                        self.planned_next_spawn_pos = Some(shunted);
                    }
                },
                None => {},
            }
            proof {
                assert(replanned_ok(
                    view_q.planned_next_spawn_pos,
                    self@.marbles,
                    radius,
                    self@.planned_next_spawn_pos,
                ));
            }
        }
        self.tick_count = if self.tick_count == u32::MAX {
            u32::MAX
        } else {
            self.tick_count + 1
        };
        proof {
            if do_action {
                assert(action_result_ok(
                    q2[0],
                    view_q.marbles,
                    view_q.score,
                    q2.drop_first(),
                    exec_m1,
                    self@.score,
                    self@.queue,
                    cbs,
                ));
            }
            assert(action_phase_ok(view_q, self@));
        }
        false
    }

    /// Take a finished loop gesture: classify it, queue the action it
    /// stands for, and queue the blob clear that always follows a player
    /// action (with a starting multiplier of zero).
    pub fn apply_pattern(&mut self, pat: Vec<HexCoord>)
        requires
            old(self).wf(),
            crate::pattern::spec_pattern_validity(pat@, old(self)@.marbles)
                == crate::pattern::PatternExtensionValidity::Finished,
            forall|i: int| 0 <= i < pat@.len() ==> (#[trigger] pat@[i]).in_range(),
        ensures
            final(self).wf(),
            final(self)@ == (BoardView { queue: final(self)@.queue, ..old(self)@ }),
            final(self)@.queue.len() == old(self)@.queue.len() + 2,
            final(self)@.queue.subrange(0, old(self)@.queue.len() as int) == old(self)@.queue,
            final(self)@.queue.last() == BoardAction::ClearBlobs(0u32),
            crate::pattern::is_hexagon(pat@, old(self)@.marbles) ==> final(self)@.queue[old(
                self,
            )@.queue.len() as int] == BoardAction::DeleteColor(old(self)@.marbles[pat@[0]]),
            !crate::pattern::is_hexagon(pat@, old(self)@.marbles) ==> (final(self)@.queue[old(
                self,
            )@.queue.len() as int] matches BoardAction::Cycle(v) && v@ == pat@.drop_last()),
            final(self).planned_ok() == old(self).planned_ok(),
    {
        let ghost q0 = self@.queue;
        let action = crate::pattern::pattern_to_action(&self.marbles, pat);
        proof {
            match &action {
                BoardAction::Cycle(v) => {
                    assert forall|i: int| 0 <= i < v@.len() implies in_bounds(
                        #[trigger] v@[i],
                        self@.settings.radius as int,
                    ) by {
                        assert(self@.marbles.contains_key(v@[i]));
                    }
                },
                _ => {},
            }
            assert(action_wf(action, self@.settings.radius as int));
        }
        self.push_action(action);
        self.push_action(BoardAction::ClearBlobs(0));
        proof {
            assert(self@.queue =~= q0.push(action).push(BoardAction::ClearBlobs(0u32)));
            assert(self@.queue.subrange(0, q0.len() as int) =~= q0);
        }
    }

    /// If the previous spawnpoint was here, where is the next spawnpoint?
    /// Wall-following first (the first direction whose ahead cell is open
    /// against a solid cell a further left turn away), then the empty cell
    /// nearest to the previous point; whatever is chosen is settled by
    /// gravity before it is returned.  `None` exactly when the board has no
    /// empty cell: the loss signal.
    #[verifier::rlimit(100)]
    fn find_next_spawnpoint(&self, prev: HexCoord) -> (r: Option<HexCoord>)
        requires
            self.wf(),
            in_bounds(prev, self@.settings.radius as int),
        ensures
            spawnpoint_ok(self@.marbles, self@.settings.radius as int, prev, r),
    {
        let ghost radius = self@.settings.radius as int;
        proof {
            lemma_bounded_coord(prev, radius);
        }
        let mut maybe_pos: Option<HexCoord> = None;
        let mut k: u8 = 0;
        while k < 6 && maybe_pos.is_none()
            invariant
                self.wf(),
                radius == self@.settings.radius as int,
                in_bounds(prev, radius),
                prev.in_range(),
                k <= 6,
                wall_scan(self@.marbles, radius, prev, 0) == (match maybe_pos {
                    Some(a) => Some(a),
                    None => wall_scan(self@.marbles, radius, prev, k as int),
                }),
                match maybe_pos {
                    Some(a) => in_bounds(a, radius) && !self@.marbles.contains_key(a),
                    None => true,
                },
            decreases 2 * (6 - k as int) + (if maybe_pos.is_none() {
                1int
            } else {
                0int
            }),
        {
            // Use a maze algorithm: always keep your left hand on the wall.
            let dir = HexDir::from_index(k);
            let ahead = prev.step(dir);
            let wallfinder = prev.step(dir.rotate(5));
            proof {
                lemma_bounded_coord(ahead, radius + 2);
                lemma_bounded_coord(wallfinder, radius + 2);
            }
            if !self.is_solid(&ahead) && self.is_solid(&wallfinder) {
                proof {
                    assert(wall_scan(self@.marbles, radius, prev, k as int) == Some(ahead));
                }
                maybe_pos = Some(ahead);
            } else {
                k += 1;
            }
        }
        let ghost ws = wall_scan(self@.marbles, radius, prev, 0);
        proof {
            match maybe_pos {
                Some(a) => {
                    assert(ws == Some(a));
                    assert(in_bounds(a, radius) && !self@.marbles.contains_key(a));
                },
                None => {
                    assert(wall_scan(self@.marbles, radius, prev, 6) == None::<HexCoord>);
                    assert(ws == None::<HexCoord>);
                },
            }
        }
        if maybe_pos.is_none() {
            // look for the closest empty spot
            let r32 = self.settings.radius as i32;
            let mut best: Option<HexCoord> = None;
            let mut best_dist: i32 = 0;
            let mut x: i32 = -r32;
            while x <= r32
                invariant
                    self.wf(),
                    radius == self@.settings.radius as int,
                    in_bounds(prev, radius),
                    prev.in_range(),
                    -r32 <= x <= r32 + 1,
                    r32 == self@.settings.radius as i32,
                    match best {
                        Some(p) => in_bounds(p, radius) && !self@.marbles.contains_key(p)
                            && best_dist == p.spec_dist(prev) && p.x < x
                            && forall|c: HexCoord|
                            #[trigger] in_bounds(c, radius) && !self@.marbles.contains_key(c)
                                && c.x < x ==> (c.spec_dist(prev) > best_dist || (c.spec_dist(
                                prev,
                            ) == best_dist && (c == p || c.x > p.x || (c.x == p.x && c.y
                                > p.y)))),
                        None => forall|c: HexCoord|
                            #[trigger] in_bounds(c, radius) && c.x < x
                                ==> self@.marbles.contains_key(c),
                    },
                decreases r32 + 1 - x,
            {
                let lo = if -r32 >= -x - r32 {
                    -r32
                } else {
                    -x - r32
                };
                let hi = if r32 <= -x + r32 {
                    r32
                } else {
                    -x + r32
                };
                let mut y: i32 = lo;
                while y <= hi
                    invariant
                        self.wf(),
                        radius == self@.settings.radius as int,
                        in_bounds(prev, radius),
                        prev.in_range(),
                        lo <= y <= hi + 1,
                        -r32 <= x <= r32,
                        r32 == self@.settings.radius as i32,
                        lo as int == (if -(r32 as int) >= -(x as int) - (r32 as int) {
                            -(r32 as int)
                        } else {
                            -(x as int) - (r32 as int)
                        }),
                        hi as int == (if (r32 as int) <= -(x as int) + (r32 as int) {
                            r32 as int
                        } else {
                            -(x as int) + (r32 as int)
                        }),
                        match best {
                            Some(p) => in_bounds(p, radius) && !self@.marbles.contains_key(p)
                                && best_dist == p.spec_dist(prev) && (p.x < x || (p.x == x && p.y
                                < y)) && forall|c: HexCoord|
                                #[trigger] in_bounds(c, radius) && !self@.marbles.contains_key(c)
                                    && (c.x < x || (c.x == x && c.y < y)) ==> (c.spec_dist(prev)
                                    > best_dist || (c.spec_dist(prev) == best_dist && (c == p
                                    || c.x > p.x || (c.x == p.x && c.y > p.y)))),
                            None => forall|c: HexCoord|
                                #[trigger] in_bounds(c, radius) && (c.x < x || (c.x == x && c.y
                                    < y)) ==> self@.marbles.contains_key(c),
                        },
                    decreases hi + 1 - y,
                {
                    let c = HexCoord::new(x, y);
                    proof {
                        assert(in_bounds(c, radius));
                        lemma_bounded_coord(c, radius);
                    }
                    if !self.marbles.contains_key(&c) {
                        let d = c.distance(&prev);
                        let better = match best {
                            Some(_) => d < best_dist,
                            None => true,
                        };
                        if better {
                            best = Some(c);
                            best_dist = d;
                        }
                    }
                    y += 1;
                }
                proof {
                    match best {
                        Some(p) => {
                            assert forall|c: HexCoord|
                                #[trigger] in_bounds(c, radius)
                                    && !self@.marbles.contains_key(c) && c.x < x
                                    + 1 implies c.spec_dist(prev) >= best_dist by {
                                if c.x == x {
                                    assert(lo <= c.y <= hi);
                                }
                            }
                        },
                        None => {
                            assert forall|c: HexCoord|
                                #[trigger] in_bounds(c, radius) && c.x < x
                                    + 1 implies self@.marbles.contains_key(c) by {
                                if c.x == x {
                                    assert(lo <= c.y <= hi);
                                }
                            }
                        },
                    }
                }
                x += 1;
            }
            proof {
                match best {
                    Some(p) => {
                        assert forall|c: HexCoord|
                            in_bounds(c, radius) && !self@.marbles.contains_key(c) implies
                            #[trigger] c.spec_dist(prev) >= p.spec_dist(prev) by {
                            assert(c.x <= r32);
                            assert(in_bounds(c, radius) && c.x < r32 + 1);
                        }
                        assert forall|c: HexCoord|
                            in_bounds(c, radius) && !self@.marbles.contains_key(c)
                                && #[trigger] c.spec_dist(prev) == p.spec_dist(prev) && c
                                != p implies (c.x > p.x || (c.x == p.x && c.y > p.y)) by {
                            assert(in_bounds(c, radius) && c.x < r32 + 1);
                        }
                    },
                    None => {
                        assert forall|c: HexCoord| #[trigger] in_bounds(c, radius) implies
                            self@.marbles.contains_key(c) by {
                            assert(c.x <= r32);
                        }
                    },
                }
            }
            maybe_pos = best;
        }
        // Shunt the spawnpoint to the outside, even if there's no gravity.
        match maybe_pos {
            Some(pos) => Some(self.gravity_all(pos)),
            None => None,
        }
    }

    /// Run the action on the board.  A cycle rotates the marbles along its
    /// path (when the path repeats a coordinate, nothing is promised beyond
    /// the invariant); a color deletion scores one point per marble removed;
    /// a blob clear removes every clearable component, scores it, and
    /// requeues itself at the front with a raised multiplier to drive the
    /// cascade.
    #[verifier::loop_isolation(false)]
    #[verifier::rlimit(100)]
    fn execute_action(&mut self, action: BoardAction)
        requires
            old(self).wf(),
            action_wf(action, old(self)@.settings.radius as int),
        ensures
            final(self).wf(),
            final(self)@.settings == old(self)@.settings,
            final(self)@.action_timer == old(self)@.action_timer,
            final(self)@.next_spawn_timer == old(self)@.next_spawn_timer,
            final(self)@.planned_next_spawn_pos == old(self)@.planned_next_spawn_pos,
            final(self)@.tick_count == old(self)@.tick_count,
            final(self)@.score >= old(self)@.score,
            action_result_ok(
                action,
                old(self)@.marbles,
                old(self)@.score,
                old(self)@.queue,
                final(self)@.marbles,
                final(self)@.score,
                final(self)@.queue,
                old(self)@.settings.clear_blob_size as int,
            ),
    {
        let ghost m0 = self@.marbles;
        let ghost a0 = action;
        match action {
            BoardAction::Cycle(poses) => {
                if poses.len() >= 2 {
                    let ghost ps = poses@;
                    let len = poses.len();
                    let mut j: usize = len - 1;
                    while j >= 1
                        invariant
                            1 <= j + 1 <= len,
                            self.wf(),
                            self@ == (BoardView { marbles: self@.marbles, ..old(self)@ }),
                            ps.no_duplicates() ==> {
                                &&& opt_at(self@.marbles, ps[j as int]) == opt_at(
                                    m0,
                                    ps[len - 1],
                                )
                                &&& forall|t: int|
                                    j < t < len ==> opt_at(self@.marbles, #[trigger] ps[t])
                                        == opt_at(m0, ps[t - 1])
                                &&& forall|t: int|
                                    0 <= t < j ==> opt_at(self@.marbles, #[trigger] ps[t])
                                        == opt_at(m0, ps[t])
                                &&& forall|c: HexCoord|
                                    !ps.contains(c) ==> #[trigger] opt_at(self@.marbles, c)
                                        == opt_at(m0, c)
                            },
                        decreases j,
                    {
                        let pa = poses[j - 1];
                        let pb = poses[j];
                        let ghost mpre = self@.marbles;
                        let a = self.marbles.remove(&pa);
                        let b = self.marbles.remove(&pb);
                        if let Some(a) = a {
                            self.marbles.insert(pb, a);
                        }
                        if let Some(b) = b {
                            self.marbles.insert(pa, b);
                        }
                        proof {
                            assert(in_bounds(ps[j - 1], self@.settings.radius as int));
                            assert(in_bounds(ps[j as int], self@.settings.radius as int));
                            if ps.no_duplicates() {
                                assert(pa != pb);
                                assert(opt_at(self@.marbles, pb) == opt_at(mpre, pa));
                                assert(opt_at(self@.marbles, pa) == opt_at(mpre, pb));
                                assert(forall|c: HexCoord|
                                    c != pa && c != pb ==> #[trigger] opt_at(self@.marbles, c)
                                        == opt_at(mpre, c));
                                assert(ps.contains(pa) && ps.contains(pb)) by {
                                    assert(ps[j - 1] == pa && ps[j as int] == pb);
                                }
                            }
                        }
                        j -= 1;
                    }
                    proof {
                        if ps.no_duplicates() {
                            assert(cycled(m0, self@.marbles, ps));
                            lemma_cycle_preserves_colors(m0, self@.marbles, ps);
                        }
                    }
                }
            },
            BoardAction::DeleteColor(color) => {
                let before = self.marbles.len();
                self.marbles.remove_color(color);
                let after = self.marbles.len();
                let removed = before - after;
                let total = (self.score as u128) + (removed as u128);
                self.score = if total > (u32::MAX as u128) {
                    u32::MAX
                } else {
                    total as u32
                };
                proof {
                    assert(removed as int == crate::marble_map::color_count(m0, color));
                }
            },
            BoardAction::ClearBlobs(multiplier) => {
                let ghost cbs = self@.settings.clear_blob_size as int;
                let blobs = self.find_blobs();
                let ghost bs = blobs@.map_values(|v: Vec<HexCoord>| v@);
                let mut to_remove: Vec<HexCoord> = Vec::new();
                let bn = blobs.len();
                let mut b: usize = 0;
                proof {
                    assert(bs.take(0) =~= Seq::<Seq<HexCoord>>::empty());
                }
                while b < bn
                    invariant
                        b <= bn,
                        to_remove@ == flat_of(bs.take(b as int)),
                    decreases bn - b,
                {
                    let blen = blobs[b].len();
                    let mut j: usize = 0;
                    while j < blen
                        invariant
                            b < bn,
                            j <= blen,
                            blen == bs[b as int].len(),
                            to_remove@ == flat_of(bs.take(b as int)) + bs[b as int].take(
                                j as int,
                            ),
                        decreases blen - j,
                    {
                        to_remove.push(blobs[b][j]);
                        proof {
                            assert(bs[b as int].take(j as int).push(bs[b as int][j as int]) =~= bs[
                                b as int
                            ].take(j + 1));
                            assert((flat_of(bs.take(b as int)) + bs[b as int].take(j as int)).push(
                                bs[b as int][j as int],
                            ) =~= flat_of(bs.take(b as int)) + bs[b as int].take(j + 1));
                        }
                        j += 1;
                    }
                    proof {
                        assert(bs[b as int].take(blen as int) =~= bs[b as int]);
                        assert(bs.take(b as int).push(bs[b as int]) =~= bs.take(b + 1));
                        lemma_flat_of_push(bs.take(b as int), bs[b as int]);
                    }
                    b += 1;
                }
                proof {
                    assert(bs.take(bn as int) =~= bs);
                    assert(to_remove@ == flat_of(bs));
                }
                if to_remove.len() > 0 {
                    proof {
                        if bs.len() == 0 {
                            assert(flat_of(bs).len() == 0);
                            assert(false);
                        }
                    }
                    let n = to_remove.len();
                    let extra = if n > 6 {
                        n - 6
                    } else {
                        0
                    };
                    let base = (n as u128) + (extra as u128);
                    let k = bn;
                    proof {
                        assert(base <= 0x20000000000000000);
                        assert((base as int) * (multiplier as int) <= 0x20000000000000000
                            * 0x100000000) by (nonlinear_arith)
                            requires
                                0 <= base <= 0x20000000000000000,
                                0 <= multiplier < 0x100000000,
                        ;
                    }
                    let p1 = base * (multiplier as u128);
                    proof {
                        if p1 <= (u32::MAX as u128) {
                            assert((p1 as int) * (k as int) <= 0x100000000
                                * 0x10000000000000000) by (nonlinear_arith)
                                requires
                                    0 <= p1 < 0x100000000,
                                    0 <= k < 0x10000000000000000,
                            ;
                        }
                    }
                    let delta_big: u128 = if p1 > (u32::MAX as u128) {
                        (u32::MAX as u128) + 1
                    } else {
                        p1 * (k as u128)
                    };
                    proof {
                        let exact = clear_blobs_score(n as int, multiplier as int, k as int);
                        assert(exact == base * (multiplier as int) * (k as int));
                        if p1 > (u32::MAX as u128) {
                            assert(exact >= p1) by (nonlinear_arith)
                                requires
                                    exact == base * (multiplier as int) * (k as int),
                                    p1 == base * (multiplier as int),
                                    k >= 1,
                                    base >= 0,
                                    multiplier >= 0,
                            ;
                        } else {
                            assert(p1 * (k as int) == exact) by (nonlinear_arith)
                                requires
                                    exact == base * (multiplier as int) * (k as int),
                                    p1 == base * (multiplier as int),
                            ;
                            assert(p1 * (k as u128) <= (u32::MAX as u128) * (k as u128))
                                by (nonlinear_arith)
                                requires
                                    p1 <= u32::MAX as u128,
                                    k >= 0,
                            ;
                        }
                    }
                    let total = (self.score as u128).checked_add(delta_big);
                    self.score = match total {
                        Some(t) if t <= (u32::MAX as u128) => t as u32,
                        _ => u32::MAX,
                    };
                    let next_mult = if multiplier == u32::MAX {
                        u32::MAX
                    } else {
                        multiplier + 1
                    };
                    self.action_queue.insert(0, BoardAction::ClearBlobs(next_mult));
                    proof {
                        assert(self@.queue =~= seq![BoardAction::ClearBlobs(next_mult)] + old(
                            self,
                        )@.queue);
                    }
                    let ghost m_pre = self@.marbles;
                    let ghost view_pre = self@;
                    let mut idx: usize = 0;
                    let rn = to_remove.len();
                    proof {
                        assert(m_pre.remove_keys(to_remove@.take(0).to_set()) =~= m_pre);
                    }
                    while idx < rn
                        invariant
                            idx <= rn,
                            self.wf(),
                            self@ == (BoardView { marbles: self@.marbles, ..view_pre }),
                            self@.marbles == m_pre.remove_keys(
                                to_remove@.take(idx as int).to_set(),
                            ),
                        decreases rn - idx,
                    {
                        let c = to_remove[idx];
                        let _ = self.marbles.remove(&c);
                        proof {
                            assert(to_remove@.take(idx as int) + seq![c] =~= to_remove@.take(
                                idx + 1,
                            ));
                            assert(to_remove@.take(idx + 1).to_set() =~= to_remove@.take(
                                idx as int,
                            ).to_set().insert(c)) by {
                                vstd::prelude::Seq::<HexCoord>::lemma_to_set_insert_commutes(
                                    to_remove@.take(idx as int),
                                    c,
                                );
                            }
                            assert(m_pre.remove_keys(to_remove@.take(idx as int).to_set()).remove(
                                c,
                            ) =~= m_pre.remove_keys(to_remove@.take(idx + 1).to_set()));
                        }
                        idx += 1;
                    }
                    proof {
                        assert(to_remove@.take(rn as int) =~= to_remove@);
                        assert(self@.marbles =~= m0.remove_keys(flat_of(bs).to_set()));
                        assert(blobs_found(m0, cbs, bs));
                        assert(to_remove@.len() == flat_of(bs).len());
                        assert(bn as int == bs.len());
                        assert(crate::blob::has_clearable_blob(m0, cbs));
                        assert(action_result_ok(
                            a0,
                            old(self)@.marbles,
                            old(self)@.score,
                            old(self)@.queue,
                            self@.marbles,
                            self@.score,
                            self@.queue,
                            old(self)@.settings.clear_blob_size as int,
                        ));
                    }
                }
            },
        }
    }

    /// Settle the whole board: re-evaluate every occupied cell and relocate
    /// any marble that can fall, repeating until a pass moves nothing.  When
    /// gravity is off this does nothing.  On exit no marble can fall any
    /// further, and the marbles themselves (as a multiset of colors) are
    /// exactly the ones the board had before.
    #[verifier::loop_isolation(false)]
    #[verifier::rlimit(100)]
    fn gravitate(&mut self)
        requires
            old(self).wf(),
        ensures
            final(self).wf(),
            final(self)@ == (BoardView { marbles: final(self)@.marbles, ..old(self)@ }),
            old(self)@.settings.gravity ==> settled(
                final(self)@.marbles,
                old(self)@.settings.radius as int,
            ),
            !old(self)@.settings.gravity ==> final(self)@.marbles == old(self)@.marbles
                && final(self).kvs() == old(self).kvs(),
            vals_of(final(self).kvs()).to_multiset() == vals_of(old(self).kvs()).to_multiset(),
            final(self).kvs().len() == old(self).kvs().len(),
            forall|col: Marble| #[trigger]
                color_count(final(self)@.marbles, col) == color_count(old(self)@.marbles, col),
    {
        if !self.settings.gravity {
            proof {
                assert(forall|col: Marble| #[trigger]
                    color_count(self@.marbles, col) == color_count(old(self)@.marbles, col));
            }
            return ;
        }
        let ghost radius = self@.settings.radius as int;
        let ghost view0 = self@;
        let ghost vals0 = vals_of(self.kvs()).to_multiset();
        let ghost len0 = self.kvs().len();
        proof {
            assert forall|j: int| 0 <= j < self.kvs().len() implies in_bounds(
                (#[trigger] self.kvs()[j]).0,
                radius,
            ) by {
                crate::marble_map::lemma_seq_to_map_index(self.kvs(), j);
            }
            lemma_fall_sum_nonneg(self.kvs(), radius);
        }
        let mut moved = true;
        while moved
            invariant
                self.wf(),
                radius == self@.settings.radius as int,
                0 <= radius <= MAX_RADIUS as int,
                self@ == (BoardView { marbles: self@.marbles, ..view0 }),
                vals_of(self.kvs()).to_multiset() == vals0,
                self.kvs().len() == len0,
                !moved ==> settled(self@.marbles, radius),
                0 <= fall_sum(self.kvs(), radius),
            decreases 2 * fall_sum(self.kvs(), radius) + (if moved {
                1int
            } else {
                0int
            }),
        {
            moved = false;
            let keys = self.marbles.keys();
            let ghost m_start = self@.marbles;
            let ghost sum_start = fall_sum(self.kvs(), radius);
            let n = keys.len();
            let ghost kvs_start = self.kvs();
            proof {
                crate::marble_map::lemma_seq_to_map_len(self.kvs());
                assert forall|j: int| 0 <= j < n implies self@.marbles.contains_key(
                    keys@[j],
                ) by {
                    crate::marble_map::lemma_seq_to_map_index(self.kvs(), j);
                }
            }
            let mut i: usize = 0;
            while i < n
                invariant
                    self.wf(),
                    radius == self@.settings.radius as int,
                    0 <= radius <= MAX_RADIUS as int,
                    self@ == (BoardView { marbles: self@.marbles, ..view0 }),
                    vals_of(self.kvs()).to_multiset() == vals0,
                    self.kvs().len() == len0,
                    i <= n,
                    keys@.len() == n,
                    forall|j: int| i <= j < n ==> self@.marbles.contains_key(#[trigger] keys@[j]),
                    fall_sum(self.kvs(), radius) <= sum_start,
                    moved ==> fall_sum(self.kvs(), radius) < sum_start,
                    !moved ==> self@.marbles == m_start && self.kvs() == kvs_start,
                    !moved ==> forall|j: int|
                        0 <= j < i ==> spec_gravity_step(
                            m_start,
                            radius,
                            #[trigger] keys@[j],
                        ).is_none(),
                decreases n - i,
            {
                let pos = keys[i];
                let ghost m0 = self@.marbles;
                proof {
                    assert(self@.marbles.contains_key(pos));
                    assert(in_bounds(pos, radius));
                }
                let target = self.gravity_step(&pos);
                if let Some(t) = target {
                    let ghost kvs0 = self.kvs();
                    proof {
                        assert(!self@.marbles.contains_key(t));
                    }
                    let m = self.marbles.remove(&pos);
                    let m = match m {
                        Some(m) => m,
                        None => {
                            proof {
                                assert(false);
                            }
                            Marble::Red
                        },
                    };
                    self.marbles.insert(t, m);
                    proof {
                        let i0 = choose|i0: int|
                            0 <= i0 < kvs0.len() && (#[trigger] kvs0[i0]) == (pos, m)
                                && self.kvs() == kvs0.remove(i0).push((t, m));
                        lemma_vals_relocate(kvs0, i0, t, m);
                        lemma_fall_sum_remove(kvs0, i0, radius);
                        lemma_fall_sum_push(kvs0.remove(i0), (t, m), radius);
                        lemma_step_measure(m0, radius, pos, t);
                        assert(fall_sum(self.kvs(), radius) == fall_sum(kvs0, radius)
                            - fall_measure(pos, radius) + fall_measure(t, radius));
                        assert forall|j: int| i + 1 <= j < n implies self@.marbles.contains_key(
                            #[trigger] keys@[j],
                        ) by {
                            assert(keys@[j] == (kvs_start[j]).0);
                            assert(keys@[i as int] == (kvs_start[i as int]).0);
                        }
                    }
                    moved = true;
                }
                i += 1;
            }
            proof {
                assert forall|j: int| 0 <= j < self.kvs().len() implies in_bounds(
                    (#[trigger] self.kvs()[j]).0,
                    radius,
                ) by {
                    crate::marble_map::lemma_seq_to_map_index(self.kvs(), j);
                }
                lemma_fall_sum_nonneg(self.kvs(), radius);
                if !moved {
                    assert forall|c: HexCoord| #[trigger]
                        self@.marbles.contains_key(c) implies spec_gravity_step(
                        self@.marbles,
                        radius,
                        c,
                    ).is_none() by {
                        crate::marble_map::lemma_seq_to_map_contains(kvs_start, c);
                        let j = choose|j: int|
                            0 <= j < kvs_start.len() && (#[trigger] kvs_start[j]).0 == c;
                        assert(keys@[j] == c);
                    }
                }
            }
        }
        proof {
            assert forall|col: Marble| #[trigger]
                color_count(self@.marbles, col) == color_count(old(self)@.marbles, col) by {
                crate::marble_map::lemma_color_count_vals(self.kvs(), col);
                crate::marble_map::lemma_color_count_vals(old(self).kvs(), col);
            }
        }
    }

    /// Repeatedly apply gravity to this point and return where it moves to.
    fn gravity_all(&self, c: HexCoord) -> (r: HexCoord)
        requires
            self.wf(),
            in_bounds(c, self@.settings.radius as int),
        ensures
            r == spec_settle(self@.marbles, self@.settings.radius as int, c),
            spec_gravity_step(self@.marbles, self@.settings.radius as int, r).is_none(),
            in_bounds(r, self@.settings.radius as int),
            r == c || !self@.marbles.contains_key(r),
    {
        let ghost radius = self@.settings.radius as int;
        let mut cur = c;
        let mut nxt = self.gravity_step(&cur);
        while nxt.is_some()
            invariant
                self.wf(),
                radius == self@.settings.radius as int,
                in_bounds(cur, radius),
                cur == c || !self@.marbles.contains_key(cur),
                nxt == spec_gravity_step(self@.marbles, radius, cur),
                spec_settle(self@.marbles, radius, cur) == spec_settle(self@.marbles, radius, c),
            decreases fall_measure(cur, radius),
        {
            let t = nxt.unwrap();
            proof {
                lemma_bounded_coord(cur, radius);
                lemma_bounded_coord(t, radius + 2);
                let g = cur.spec_gravity_dir();
                if t == cur.spec_step(g.spec_rotate(0)) {
                    lemma_fall_measure_decreases(cur, t, 0, radius);
                } else if t == cur.spec_step(g.spec_rotate(5)) {
                    lemma_fall_measure_decreases(cur, t, 5, radius);
                } else {
                    assert(t == cur.spec_step(g.spec_rotate(1)));
                    lemma_fall_measure_decreases(cur, t, 1, radius);
                }
            }
            cur = t;
            nxt = self.gravity_step(&cur);
        }
        cur
    }
}

} // verus!
