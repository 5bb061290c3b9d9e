//! The pattern validator: a small state machine over the player's growing
//! loop gesture, and the classifier that turns a closed loop into a board
//! action.

use vstd::prelude::*;

use crate::action::BoardAction;
use crate::board::opt_at;
use crate::hex::{dir_of, HexCoord};
use crate::marble::Marble;
use crate::marble_map::MarbleMap;

verus! {

/// Is this proposed addition to the pattern valid?
#[derive(Clone, Copy, PartialEq, Eq, Structural, Debug)]
pub enum PatternExtensionValidity {
    /// It's valid, but it isn't a closed loop yet.
    Continue,
    /// This is in no way valid; don't consider it.
    Invalid,
    /// This is now a closed loop.
    Finished,
}

/// Every consecutive pair of the gesture sits on occupied, adjacent cells.
pub open spec fn pairs_ok(p: Seq<HexCoord>, m: Map<HexCoord, Marble>) -> bool {
    forall|i: int|
        0 <= i < p.len() - 1 ==> m.contains_key(#[trigger] p[i]) && m.contains_key(p[i + 1]) && (
        p[i]).spec_adjacent(p[i + 1])
}

/// The validator's verdict on a gesture: consecutive cells must be occupied
/// and adjacent; a short gesture can only continue; revisiting any interior
/// cell is a self-crossing; returning to the start after at least three
/// other cells closes the loop.
pub open spec fn spec_pattern_validity(
    p: Seq<HexCoord>,
    m: Map<HexCoord, Marble>,
) -> PatternExtensionValidity {
    if !pairs_ok(p, m) {
        PatternExtensionValidity::Invalid
    } else if p.len() <= 2 {
        PatternExtensionValidity::Continue
    } else if p.len() == 3 {
        if p.last() == p.first() {
            PatternExtensionValidity::Invalid
        } else {
            PatternExtensionValidity::Continue
        }
    } else if p.subrange(1, p.len() - 1).contains(p.last()) {
        PatternExtensionValidity::Invalid
    } else if p.first() == p.last() {
        PatternExtensionValidity::Finished
    } else {
        PatternExtensionValidity::Continue
    }
}

/// Classify the gesture so far against the board.
pub fn is_pattern_valid(pattern: &Vec<HexCoord>, board: &MarbleMap) -> (r:
    PatternExtensionValidity)
    requires
        board.wf(),
        forall|i: int| 0 <= i < pattern@.len() ==> (#[trigger] pattern@[i]).in_range(),
    ensures
        r == spec_pattern_validity(pattern@, board@),
{
    let len = pattern.len();
    if len >= 2 {
        let mut i: usize = 0;
        while i < len - 1
            invariant
                board.wf(),
                forall|j: int| 0 <= j < pattern@.len() ==> (#[trigger] pattern@[j]).in_range(),
                len >= 2,
                i <= len - 1,
                len == pattern@.len(),
                forall|j: int|
                    0 <= j < i ==> board@.contains_key(#[trigger] pattern@[j])
                        && board@.contains_key(pattern@[j + 1]) && (pattern@[j]).spec_adjacent(
                        pattern@[j + 1],
                    ),
            decreases len - 1 - i,
        {
            let a = pattern[i];
            let b = pattern[i + 1];
            if !board.contains_key(&a) || !board.contains_key(&b) {
                return PatternExtensionValidity::Invalid;
            }
            if !(a.distance(&b) == 1) {
                return PatternExtensionValidity::Invalid;
            }
            i += 1;
        }
    }
    proof {
        assert(pairs_ok(pattern@, board@));
    }
    if len <= 2 {
        PatternExtensionValidity::Continue
    } else if len == 3 {
        if pattern[len - 1] == pattern[0] {
            PatternExtensionValidity::Invalid
        } else {
            PatternExtensionValidity::Continue
        }
    } else {
        // If the proposed ending overlaps anything *except* the first, we
        // fail.
        let last = pattern[len - 1];
        let mut mid: usize = 1;
        let mut crossed = false;
        while mid < len - 1
            invariant
                1 <= mid <= len - 1,
                4 <= len == pattern@.len(),
                last == pattern@[len - 1],
                crossed == pattern@.subrange(1, mid as int).contains(last),
            decreases len - 1 - mid,
        {
            if pattern[mid] == last {
                proof {
                    assert(pattern@.subrange(1, mid + 1)[mid - 1] == pattern@[mid as int]);
                }
                crossed = true;
            }
            proof {
                if pattern@.subrange(1, mid as int).contains(last) {
                    let j = choose|j: int|
                        0 <= j < mid - 1 && #[trigger] pattern@.subrange(1, mid as int)[j] == last;
                    assert(pattern@.subrange(1, mid + 1)[j] == last);
                } else if !crossed {
                    if pattern@.subrange(1, mid + 1).contains(last) {
                        let j = choose|j: int|
                            0 <= j < mid && #[trigger] pattern@.subrange(1, mid + 1)[j] == last;
                        if j < mid - 1 {
                            assert(pattern@.subrange(1, mid as int)[j] == last);
                            assert(false);
                        } else {
                            assert(pattern@[mid as int] == last);
                        }
                    }
                }
            }
            mid += 1;
        }
        proof {
            assert(crossed == pattern@.subrange(1, len - 1).contains(last));
        }
        if crossed {
            // we cross somewhere in the middle
            PatternExtensionValidity::Invalid
        } else if pattern[0] == last {
            // we close the loop!
            PatternExtensionValidity::Finished
        } else {
            PatternExtensionValidity::Continue
        }
    }
}

/// The direction index leading from a cell to an adjacent one.
#[verifier::opaque]
pub open spec fn step_dir(a: HexCoord, b: HexCoord) -> int {
    choose|k: int| 0 <= k < 6 && b == a.spec_step(#[trigger] dir_of(k))
}

/// The step direction is the unique one.
pub proof fn lemma_step_dir_unique(a: HexCoord, b: HexCoord, k: int)
    requires
        a.in_range(),
        0 <= k < 6,
        b == a.spec_step(dir_of(k)),
    ensures
        step_dir(a, b) == k,
{
    reveal(step_dir);
    let k2 = step_dir(a, b);
    assert(0 <= k2 < 6 && b == a.spec_step(dir_of(k2)));
}

/// Direction indices between consecutive cells of the gesture.
#[verifier::opaque]
pub open spec fn deltas_of(p: Seq<HexCoord>) -> Seq<int> {
    Seq::new((p.len() - 1) as nat, |i: int| step_dir(p[i], p[i + 1]))
}

/// Turn (as sixths of a clockwise turn) at each interior vertex: 0 is
/// straight on, 1 a right turn, 5 a left turn.
#[verifier::opaque]
pub open spec fn angles_of(p: Seq<HexCoord>) -> Seq<int> {
    Seq::new((p.len() - 2) as nat, |i: int| (deltas_of(p)[i + 1] - deltas_of(p)[i] + 6) % 6)
}

/// No turn strictly between the two indices.
pub open spec fn no_corner_between(an: Seq<int>, i: int, j: int) -> bool {
    forall|t: int| i < t < j ==> (#[trigger] an[t]) == 0
}

/// A closed gesture traces a "regular hexagon" pattern: every turn is a
/// single step left or right, all turns go the same way, every full run
/// between turns is as long as the run before the first turn, and every
/// corner cell carries the starting cell's color.
#[verifier::opaque]
pub open spec fn is_hexagon(p: Seq<HexCoord>, m: Map<HexCoord, Marble>) -> bool {
    let an = angles_of(p);
    &&& forall|i: int|
        0 <= i < an.len() ==> ((#[trigger] an[i]) == 0 || an[i] == 1 || an[i] == 5)
    &&& forall|i: int, j: int|
        0 <= i < an.len() && 0 <= j < an.len() && (#[trigger] an[i]) != 0 && (#[trigger] an[j])
            != 0 ==> an[i] == an[j]
    &&& forall|f: int, i: int, j: int|
        #![trigger an[f], an[i], an[j]]
        0 <= f < an.len() && an[f] != 0 && no_corner_between(an, -1, f) && 0 <= i < j < an.len()
            && an[i] != 0 && an[j] != 0 && no_corner_between(an, i, j) ==> j - i - 1 == f
    &&& forall|i: int|
        0 <= i < an.len() && (#[trigger] an[i]) != 0 ==> opt_at(m, p[i + 1]) == opt_at(m, p[0])
}

/// An angle other than straight, left or right breaks the pattern.
proof fn lemma_not_hexagon_bad_angle(p: Seq<HexCoord>, m: Map<HexCoord, Marble>, i: int)
    requires
        0 <= i < angles_of(p).len(),
        angles_of(p)[i] != 0 && angles_of(p)[i] != 1 && angles_of(p)[i] != 5,
    ensures
        !is_hexagon(p, m),
{
    reveal(is_hexagon);
}

/// A corner off the starting color breaks the pattern.
proof fn lemma_not_hexagon_bad_color(p: Seq<HexCoord>, m: Map<HexCoord, Marble>, i: int)
    requires
        0 <= i < angles_of(p).len(),
        angles_of(p)[i] != 0,
        opt_at(m, p[i + 1]) != opt_at(m, p[0]),
    ensures
        !is_hexagon(p, m),
{
    reveal(is_hexagon);
}

/// Two turns in different senses break the pattern.
proof fn lemma_not_hexagon_bad_turn(p: Seq<HexCoord>, m: Map<HexCoord, Marble>, i: int, j: int)
    requires
        0 <= i < angles_of(p).len(),
        0 <= j < angles_of(p).len(),
        angles_of(p)[i] != 0,
        angles_of(p)[j] != 0,
        angles_of(p)[i] != angles_of(p)[j],
    ensures
        !is_hexagon(p, m),
{
    reveal(is_hexagon);
}

/// A run between turns of the wrong length breaks the pattern.
proof fn lemma_not_hexagon_bad_side(
    p: Seq<HexCoord>,
    m: Map<HexCoord, Marble>,
    f: int,
    i: int,
    j: int,
)
    requires
        0 <= f < angles_of(p).len(),
        angles_of(p)[f] != 0,
        no_corner_between(angles_of(p), -1, f),
        0 <= i < j < angles_of(p).len(),
        angles_of(p)[i] != 0,
        angles_of(p)[j] != 0,
        no_corner_between(angles_of(p), i, j),
        j - i - 1 != f,
    ensures
        !is_hexagon(p, m),
{
    reveal(is_hexagon);
}

/// The four conditions together make the pattern a hexagon.
proof fn lemma_hexagon(p: Seq<HexCoord>, m: Map<HexCoord, Marble>)
    requires
        forall|i: int|
            0 <= i < angles_of(p).len() ==> ((#[trigger] angles_of(p)[i]) == 0 || angles_of(p)[i]
                == 1 || angles_of(p)[i] == 5),
        forall|i: int, j: int|
            0 <= i < angles_of(p).len() && 0 <= j < angles_of(p).len() && (#[trigger] angles_of(
                p,
            )[i]) != 0 && (#[trigger] angles_of(p)[j]) != 0 ==> angles_of(p)[i] == angles_of(p)[j],
        forall|f: int, i: int, j: int|
            #![trigger angles_of(p)[f], angles_of(p)[i], angles_of(p)[j]]
            0 <= f < angles_of(p).len() && angles_of(p)[f] != 0 && no_corner_between(
                angles_of(p),
                -1,
                f,
            ) && 0 <= i < j < angles_of(p).len() && angles_of(p)[i] != 0 && angles_of(p)[j] != 0
                && no_corner_between(angles_of(p), i, j) ==> j - i - 1 == f,
        forall|i: int|
            0 <= i < angles_of(p).len() && (#[trigger] angles_of(p)[i]) != 0 ==> opt_at(
                m,
                p[i + 1],
            ) == opt_at(m, p[0]),
    ensures
        is_hexagon(p, m),
{
    reveal(is_hexagon);
}

/// The direction leading from a cell to an adjacent one, as an index.
fn dir_index_between(a: &HexCoord, b: &HexCoord) -> (k: u8)
    requires
        a.in_range(),
        a.spec_adjacent(*b),
    ensures
        k < 6,
        *b == a.spec_step(dir_of(k as int)),
        k as int == step_dir(*a, *b),
{
    proof {
        crate::hex::lemma_adjacent_iff_step(*a, *b);
    }
    let mut k: u8 = 0;
    while k < 6
        invariant
            a.in_range(),
            a.spec_adjacent(*b),
            k <= 6,
            forall|t: int| 0 <= t < k ==> *b != a.spec_step(#[trigger] dir_of(t)),
        decreases 6 - k,
    {
        let d = crate::hex::HexDir::from_index(k);
        if a.step(d) == *b {
            proof {
                lemma_step_dir_unique(*a, *b, k as int);
            }
            return k;
        }
        k += 1;
    }
    proof {
        assert(false);
    }
    0
}

/// Turn a finished (closed) gesture into the board action it stands for: a
/// regular-hexagon loop deletes its color, anything else cycles the marbles
/// along the path (with the closing duplicate stripped).
#[verifier::rlimit(100)]
pub fn pattern_to_action(marbles: &MarbleMap, pat: Vec<HexCoord>) -> (r: BoardAction)
    requires
        marbles.wf(),
        spec_pattern_validity(pat@, marbles@) == PatternExtensionValidity::Finished,
        forall|i: int| 0 <= i < pat@.len() ==> (#[trigger] pat@[i]).in_range(),
    ensures
        is_hexagon(pat@, marbles@) ==> r == BoardAction::DeleteColor(marbles@[pat@[0]]),
        !is_hexagon(pat@, marbles@) ==> (r matches BoardAction::Cycle(v) && v@ == pat@.drop_last()),
        match r {
            BoardAction::Cycle(v) => forall|i: int|
                0 <= i < v@.len() ==> marbles@.contains_key(#[trigger] v@[i]),
            _ => true,
        },
{
    let ghost m = marbles@;
    let ghost ps = pat@;
    let n = pat.len();
    proof {
        assert(n >= 4);
        assert(pairs_ok(ps, m));
    }
    // direction of each step
    let mut ds: Vec<u8> = Vec::new();
    let mut i: usize = 0;
    while i < n - 1
        invariant
            marbles.wf(),
            m == marbles@,
            ps == pat@,
            n == ps.len(),
            n >= 4,
            pairs_ok(ps, m),
            forall|j: int| 0 <= j < ps.len() ==> (#[trigger] ps[j]).in_range(),
            pat@.len() == n,
            i <= n - 1,
            ds@.len() == i,
            forall|j: int| 0 <= j < i ==> (#[trigger] ds@[j]) as int == deltas_of(ps)[j],
            forall|j: int| 0 <= j < i ==> (#[trigger] ds@[j]) < 6,
        decreases n - 1 - i,
    {
        let k = dir_index_between(&pat[i], &pat[i + 1]);
        ds.push(k);
        proof {
            reveal(deltas_of);
        }
        i += 1;
    }
    proof {
        reveal(deltas_of);
        assert(deltas_of(ps).len() == n - 1);
    }
    // turn at each interior vertex
    let mut an: Vec<u8> = Vec::new();
    let mut i2: usize = 0;
    while i2 < n - 2
        invariant
            marbles.wf(),
            m == marbles@,
            ps == pat@,
            n == ps.len(),
            n >= 4,
            pairs_ok(ps, m),
            forall|j: int| 0 <= j < ps.len() ==> (#[trigger] ps[j]).in_range(),
            i2 <= n - 2,
            an@.len() == i2,
            ds@.len() == n - 1,
            forall|j: int| 0 <= j < n - 1 ==> (#[trigger] ds@[j]) as int == deltas_of(ps)[j],
            forall|j: int| 0 <= j < n - 1 ==> (#[trigger] ds@[j]) < 6,
            forall|j: int| 0 <= j < i2 ==> (#[trigger] an@[j]) as int == angles_of(ps)[j],
            forall|j: int| 0 <= j < i2 ==> (#[trigger] an@[j]) < 6,
        decreases n - 2 - i2,
    {
        let a = (ds[i2 + 1] + 6 - ds[i2]) % 6;
        an.push(a);
        proof {
            reveal(angles_of);
        }
        i2 += 1;
    }
    let ghost sp_an = angles_of(ps);
    let al = an.len();
    proof {
        reveal(angles_of);
        assert(al == sp_an.len());
    }
    // the color every corner must match
    let first_marble = match marbles.get(&pat[0]) {
        Some(mm) => *mm,
        None => {
            proof {
                assert(m.contains_key(ps[0]));
                assert(false);
            }
            Marble::Red
        },
    };
    // the folding classifier, one condition per pass
    // every turn is a single step left or right
    let mut i3: usize = 0;
    while i3 < al
        invariant
            marbles.wf(),
            m == marbles@,
            ps == pat@,
            pairs_ok(ps, m),
            n == ps.len() && n >= 4 && pat@.len() == n,
            an@.len() == al && al == sp_an.len() && sp_an == angles_of(ps),
            al as int == n - 2,
            forall|j: int| 0 <= j < al ==> (#[trigger] an@[j]) as int == sp_an[j],
            i3 <= al,
            forall|t: int|
                0 <= t < i3 ==> (#[trigger] sp_an[t]) == 0 || sp_an[t] == 1 || sp_an[t] == 5,
        decreases al - i3,
    {
        let a = an[i3];
        if !(a == 0 || a == 1 || a == 5) {
            proof {
                lemma_not_hexagon_bad_angle(ps, m, i3 as int);
            }
            return cycle_action(marbles, pat);
        }
        i3 += 1;
    }
    // every turn goes the same way
    let mut turn: u8 = 0;
    let mut have_turn = false;
    let ghost mut t_idx: int = 0;
    let mut i4: usize = 0;
    while i4 < al
        invariant
            marbles.wf(),
            m == marbles@,
            ps == pat@,
            pairs_ok(ps, m),
            n == ps.len() && n >= 4 && pat@.len() == n,
            an@.len() == al && al == sp_an.len() && sp_an == angles_of(ps),
            al as int == n - 2,
            forall|j: int| 0 <= j < al ==> (#[trigger] an@[j]) as int == sp_an[j],
            i4 <= al,
            have_turn ==> 0 <= t_idx < i4 && sp_an[t_idx] != 0 && turn as int == sp_an[t_idx],
            forall|t: int| 0 <= t < i4 && (#[trigger] sp_an[t]) != 0 ==> have_turn && sp_an[t]
                == turn as int,
        decreases al - i4,
    {
        let a = an[i4];
        if a != 0 {
            if have_turn {
                if a != turn {
                    proof {
                        lemma_not_hexagon_bad_turn(ps, m, t_idx, i4 as int);
                    }
                    return cycle_action(marbles, pat);
                }
            } else {
                turn = a;
                have_turn = true;
                proof {
                    t_idx = i4 as int;
                }
            }
        }
        i4 += 1;
    }
    // every corner carries the starting color
    let mut i5: usize = 0;
    while i5 < al
        invariant
            marbles.wf(),
            m == marbles@,
            ps == pat@,
            pairs_ok(ps, m),
            n == ps.len() && n >= 4 && pat@.len() == n,
            an@.len() == al && al == sp_an.len() && sp_an == angles_of(ps),
            al as int == n - 2,
            forall|j: int| 0 <= j < al ==> (#[trigger] an@[j]) as int == sp_an[j],
            m.contains_key(ps[0]) && first_marble == m[ps[0]],
            i5 <= al,
            forall|t: int|
                0 <= t < i5 && (#[trigger] sp_an[t]) != 0 ==> opt_at(m, ps[t + 1]) == opt_at(
                    m,
                    ps[0],
                ),
        decreases al - i5,
    {
        let a = an[i5];
        if a != 0 {
            let corner_ok = match marbles.get(&pat[i5 + 1]) {
                Some(mm) => *mm == first_marble,
                None => false,
            };
            if !corner_ok {
                proof {
                    assert(m.contains_key(ps[i5 + 1]));
                    assert(opt_at(m, ps[i5 + 1]) != opt_at(m, ps[0]));
                    lemma_not_hexagon_bad_color(ps, m, i5 as int);
                }
                return cycle_action(marbles, pat);
            }
        }
        i5 += 1;
    }
    // every full run between turns is as long as the first
    let mut side_len: usize = 0;
    let mut have_side_len = false;
    let mut current: usize = 0;
    let ghost mut first_c: int = 0;
    let ghost mut last_c: int = 0;
    let mut i6: usize = 0;
    while i6 < al
        invariant
            marbles.wf(),
            m == marbles@,
            ps == pat@,
            pairs_ok(ps, m),
            n == ps.len() && n >= 4 && pat@.len() == n,
            an@.len() == al && al == sp_an.len() && sp_an == angles_of(ps),
            al as int == n - 2,
            forall|j: int| 0 <= j < al ==> (#[trigger] an@[j]) as int == sp_an[j],
            i6 <= al,
            !have_side_len ==> no_corner_between(sp_an, -1, i6 as int) && current == i6,
            have_side_len ==> {
                &&& 0 <= first_c < i6
                &&& sp_an[first_c] != 0
                &&& no_corner_between(sp_an, -1, first_c)
                &&& side_len == first_c
                &&& first_c <= last_c < i6
                &&& sp_an[last_c] != 0
                &&& no_corner_between(sp_an, last_c, i6 as int)
                &&& current == i6 - last_c - 1
            },
            forall|i1: int, j1: int|
                #![trigger sp_an[i1], sp_an[j1]]
                0 <= i1 < j1 < i6 && sp_an[i1] != 0 && sp_an[j1] != 0 && no_corner_between(
                    sp_an,
                    i1,
                    j1,
                ) ==> have_side_len && j1 - i1 - 1 == first_c,
        decreases al - i6,
    {
        let a = an[i6];
        if a != 0 {
            if have_side_len && current != side_len {
                proof {
                    lemma_not_hexagon_bad_side(ps, m, first_c, last_c, i6 as int);
                }
                return cycle_action(marbles, pat);
            }
            proof {
                if !have_side_len {
                    first_c = i6 as int;
                }
                last_c = i6 as int;
            }
            if !have_side_len {
                side_len = current;
                have_side_len = true;
            }
            current = 0;
        } else {
            current = current + 1;
        }
        i6 += 1;
    }
    proof {
        assert forall|f: int, i1: int, j1: int|
            #![trigger sp_an[f], sp_an[i1], sp_an[j1]]
            0 <= f < sp_an.len() && sp_an[f] != 0 && no_corner_between(sp_an, -1, f) && 0 <= i1
                < j1 < sp_an.len() && sp_an[i1] != 0 && sp_an[j1] != 0 && no_corner_between(
                sp_an,
                i1,
                j1,
            ) implies j1 - i1 - 1 == f by {
            if !have_side_len {
                assert(sp_an[f] == 0);
                assert(false);
            }
            if f < first_c {
                assert(sp_an[f] == 0);
                assert(false);
            }
            if first_c < f {
                assert(sp_an[first_c] == 0);
                assert(false);
            }
        }
        lemma_hexagon(ps, m);
    }
    BoardAction::DeleteColor(first_marble)
}

/// The fallback action of the classifier: cycle along the path, the
/// closing duplicate stripped.
fn cycle_action(marbles: &MarbleMap, pat: Vec<HexCoord>) -> (r: BoardAction)
    requires
        marbles.wf(),
        pairs_ok(pat@, marbles@),
        pat@.len() >= 2,
    ensures
        r matches BoardAction::Cycle(v) && v@ == pat@.drop_last(),
        match r {
            BoardAction::Cycle(v) => forall|i: int|
                0 <= i < v@.len() ==> marbles@.contains_key(#[trigger] v@[i]),
            _ => true,
        },
{
    let ghost ps = pat@;
    // Because last == first we need to remove one of them, otherwise the
    // cycle breaks.
    let mut pat = pat;
    let _ = pat.pop();
    proof {
        assert(pat@ =~= ps.drop_last());
        assert forall|i4: int| 0 <= i4 < pat@.len() implies marbles@.contains_key(
            #[trigger] pat@[i4],
        ) by {
            assert(marbles@.contains_key(ps[i4]));
        }
    }
    BoardAction::Cycle(pat)
}

} // verus!
