//! Connectivity of same-colored marbles, the mathematical side of the blob
//! finder: chains, connectedness, and the blob (connected component) of a
//! cell.

use vstd::prelude::*;

use crate::hex::HexCoord;
use crate::marble::Marble;

verus! {

/// A chain of occupied cells, all of the first cell's color, each step
/// between hex neighbors.
pub open spec fn chain_ok(m: Map<HexCoord, Marble>, p: Seq<HexCoord>) -> bool {
    &&& p.len() >= 1
    &&& forall|i: int| 0 <= i < p.len() ==> m.contains_key(#[trigger] p[i]) && m[p[i]] == m[p[0]]
    &&& forall|i: int| 0 <= i < p.len() - 1 ==> (#[trigger] p[i]).spec_adjacent(p[i + 1])
}

/// Two cells joined by a chain of same-colored neighbors.
pub open spec fn connected(m: Map<HexCoord, Marble>, a: HexCoord, b: HexCoord) -> bool {
    exists|p: Seq<HexCoord>| chain_ok(m, p) && p.first() == a && p.last() == b
}

/// The maximal same-colored connected group through `c`.
pub open spec fn blob_of(m: Map<HexCoord, Marble>, c: HexCoord) -> Set<HexCoord> {
    Set::new(|b: HexCoord| connected(m, c, b))
}

/// Whether the cell sits in a blob large enough to clear.
pub open spec fn clearable(m: Map<HexCoord, Marble>, c: HexCoord, cbs: int) -> bool {
    m.contains_key(c) && blob_of(m, c).len() >= cbs
}

/// Whether any blob on the board reaches the clearing threshold.
pub open spec fn has_clearable_blob(m: Map<HexCoord, Marble>, cbs: int) -> bool {
    exists|c: HexCoord| clearable(m, c, cbs)
}

/// An occupied cell is connected to itself.
pub proof fn lemma_connected_refl(m: Map<HexCoord, Marble>, c: HexCoord)
    requires
        m.contains_key(c),
    ensures
        connected(m, c, c),
{
    let p = seq![c];
    assert(chain_ok(m, p) && p.first() == c && p.last() == c);
}

/// Connectivity extends over one more matching neighbor.
pub proof fn lemma_connected_step(m: Map<HexCoord, Marble>, a: HexCoord, b: HexCoord, n: HexCoord)
    requires
        connected(m, a, b),
        b.spec_adjacent(n),
        m.contains_key(n),
        m[n] == m[a],
    ensures
        connected(m, a, n),
{
    let p = choose|p: Seq<HexCoord>| chain_ok(m, p) && p.first() == a && p.last() == b;
    let q = p.push(n);
    assert(q.first() == a && q.last() == n);
    assert(chain_ok(m, q)) by {
        assert(forall|i: int| 0 <= i < p.len() ==> q[i] == p[i]);
        assert(m.contains_key(q[0]) && m[q[0]] == m[a]);
        assert(forall|i: int|
            0 <= i < q.len() ==> m.contains_key(#[trigger] q[i]) && m[q[i]] == m[q[0]]);
        assert(forall|i: int| 0 <= i < p.len() - 1 ==> (#[trigger] q[i]).spec_adjacent(q[i + 1]));
        assert((q[p.len() - 1]).spec_adjacent(q[p.len() as int]));
    }
}

/// Every cell connected to `a` is occupied, and by `a`'s color.
pub proof fn lemma_connected_occupied(m: Map<HexCoord, Marble>, a: HexCoord, b: HexCoord)
    requires
        connected(m, a, b),
    ensures
        m.contains_key(a),
        m.contains_key(b),
        m[b] == m[a],
{
    let p = choose|p: Seq<HexCoord>| chain_ok(m, p) && p.first() == a && p.last() == b;
    assert(m.contains_key(p[0]));
    assert(m.contains_key(p[p.len() - 1]) && m[p[p.len() - 1]] == m[p[0]]);
}

/// Connectivity is symmetric: reverse the chain.
pub proof fn lemma_connected_symm(m: Map<HexCoord, Marble>, a: HexCoord, b: HexCoord)
    requires
        connected(m, a, b),
    ensures
        connected(m, b, a),
{
    let p = choose|p: Seq<HexCoord>| chain_ok(m, p) && p.first() == a && p.last() == b;
    let n = p.len() as int;
    let q = Seq::new(p.len(), |i: int| p[n - 1 - i]);
    assert(q.first() == b && q.last() == a);
    assert(chain_ok(m, q)) by {
        assert(m[q[0]] == m[p[0]]);
        assert(forall|i: int|
            0 <= i < q.len() ==> m.contains_key(#[trigger] q[i]) && m[q[i]] == m[q[0]]);
        assert forall|i: int| 0 <= i < q.len() - 1 implies (#[trigger] q[i]).spec_adjacent(
            q[i + 1],
        ) by {
            assert((p[n - 2 - i]).spec_adjacent(p[n - 1 - i]));
            crate::hex::lemma_adjacent_symm(p[n - 2 - i], p[n - 1 - i]);
        }
    }
}

/// Connectivity is transitive: concatenate the chains.
pub proof fn lemma_connected_trans(m: Map<HexCoord, Marble>, a: HexCoord, b: HexCoord, c: HexCoord)
    requires
        connected(m, a, b),
        connected(m, b, c),
    ensures
        connected(m, a, c),
{
    let p = choose|p: Seq<HexCoord>| chain_ok(m, p) && p.first() == a && p.last() == b;
    let q = choose|q: Seq<HexCoord>| chain_ok(m, q) && q.first() == b && q.last() == c;
    let r = p + q.drop_first();
    assert(r.first() == a);
    if q.len() == 1 {
        assert(r =~= p);
    } else {
        assert(r.last() == q.last());
        assert(chain_ok(m, r)) by {
            assert(forall|i: int| 0 <= i < p.len() ==> r[i] == p[i]);
            assert(forall|i: int| p.len() <= i < r.len() ==> r[i] == q[i - p.len() + 1]);
            assert(m[q[0]] == m[p[0]]);
            assert(forall|i: int|
                0 <= i < r.len() ==> m.contains_key(#[trigger] r[i]) && m[r[i]] == m[r[0]]);
            assert forall|i: int| 0 <= i < r.len() - 1 implies (#[trigger] r[i]).spec_adjacent(
                r[i + 1],
            ) by {
                if i < p.len() - 1 {
                    assert((p[i]).spec_adjacent(p[i + 1]));
                } else if i == p.len() - 1 {
                    assert((q[0]).spec_adjacent(q[1]));
                    assert(r[i] == p.last() && p.last() == q[0]);
                } else {
                    assert((q[i - p.len()]).spec_adjacent(q[i - p.len() + 1]));
                }
            }
        }
    }
}

/// Two connected cells have the same blob.
pub proof fn lemma_same_blob(m: Map<HexCoord, Marble>, a: HexCoord, b: HexCoord)
    requires
        connected(m, a, b),
    ensures
        blob_of(m, a) =~= blob_of(m, b),
{
    assert forall|x: HexCoord| blob_of(m, a).contains(x) == blob_of(m, b).contains(x) by {
        if connected(m, a, x) {
            lemma_connected_symm(m, a, b);
            lemma_connected_trans(m, b, a, x);
        }
        if connected(m, b, x) {
            lemma_connected_trans(m, a, b, x);
        }
    }
}

/// The blob lies inside the occupied cells, so it is finite and no larger
/// than the board's population.
pub proof fn lemma_blob_finite(m: Map<HexCoord, Marble>, c: HexCoord)
    requires
        m.dom().finite(),
    ensures
        blob_of(m, c).subset_of(m.dom()),
        blob_of(m, c).finite(),
        blob_of(m, c).len() <= m.dom().len(),
{
    assert forall|x: HexCoord| blob_of(m, c).contains(x) implies m.dom().contains(x) by {
        lemma_connected_occupied(m, c, x);
    }
    vstd::set_lib::lemma_len_subset(blob_of(m, c), m.dom());
}

/// A cell with no matching neighbor is a blob of its own.
pub proof fn lemma_isolated_blob(m: Map<HexCoord, Marble>, c: HexCoord)
    requires
        m.contains_key(c),
        forall|n: HexCoord| c.spec_adjacent(n) ==> !(m.contains_key(n) && m[n] == m[c]),
    ensures
        blob_of(m, c) =~= Set::<HexCoord>::empty().insert(c),
{
    lemma_connected_refl(m, c);
    assert forall|x: HexCoord| blob_of(m, c).contains(x) implies x == c by {
        let p = choose|p: Seq<HexCoord>| chain_ok(m, p) && p.first() == c && p.last() == x;
        if p.len() >= 2 {
            assert((p[0]).spec_adjacent(p[1]));
            assert(m.contains_key(p[1]) && m[p[1]] == m[p[0]]);
            assert(false);
        }
    }
}

/// Placing a marble on a fresh cell leaves the blob of any cell not
/// connected to it exactly as it was: chains that avoid the new cell are
/// chains of the old map.
pub proof fn lemma_blob_insert_unconnected(
    m: Map<HexCoord, Marble>,
    c0: HexCoord,
    color: Marble,
    x: HexCoord,
)
    requires
        !m.contains_key(c0),
        !connected(m.insert(c0, color), x, c0),
    ensures
        blob_of(m.insert(c0, color), x) =~= blob_of(m, x),
{
    let m1 = m.insert(c0, color);
    assert forall|y: HexCoord| blob_of(m1, x).contains(y) == blob_of(m, x).contains(y) by {
        if connected(m1, x, y) {
            let p = choose|p: Seq<HexCoord>| chain_ok(m1, p) && p.first() == x && p.last() == y;
            if exists|k: int| 0 <= k < p.len() && #[trigger] p[k] == c0 {
                let k = choose|k: int| 0 <= k < p.len() && #[trigger] p[k] == c0;
                let q = p.take(k + 1);
                assert(chain_ok(m1, q)) by {
                    assert(forall|i: int| 0 <= i < q.len() ==> q[i] == p[i]);
                    assert(m1[q[0]] == m1[p[0]]);
                    assert(forall|i: int|
                        0 <= i < q.len() ==> m1.contains_key(#[trigger] q[i]) && m1[q[i]]
                            == m1[q[0]]);
                    assert forall|i: int| 0 <= i < q.len() - 1 implies (
                    #[trigger] q[i]).spec_adjacent(q[i + 1]) by {
                        assert((p[i]).spec_adjacent(p[i + 1]));
                    }
                }
                assert(q.first() == x && q.last() == c0);
                assert(connected(m1, x, c0));
                assert(false);
            }
            assert(chain_ok(m, p)) by {
                assert(forall|i: int| 0 <= i < p.len() ==> (#[trigger] p[i]) != c0);
                assert(forall|i: int|
                    0 <= i < p.len() ==> m.contains_key(#[trigger] p[i]) && m[p[i]] == m1[p[i]]);
            }
            assert(connected(m, x, y));
        }
        if connected(m, x, y) {
            let p = choose|p: Seq<HexCoord>| chain_ok(m, p) && p.first() == x && p.last() == y;
            assert(chain_ok(m1, p)) by {
                assert(forall|i: int|
                    0 <= i < p.len() ==> m.contains_key(#[trigger] p[i]) && p[i] != c0);
                assert(forall|i: int|
                    0 <= i < p.len() ==> m1.contains_key(#[trigger] p[i]) && m1[p[i]] == m[p[i]]);
            }
            assert(connected(m1, x, y));
        }
    }
}

/// Any chain starting in a same-color set that is closed under matching
/// adjacency stays inside the set.
proof fn lemma_chain_in_closed(
    m: Map<HexCoord, Marble>,
    p: Seq<HexCoord>,
    s: Set<HexCoord>,
    color: Marble,
)
    requires
        chain_ok(m, p),
        s.contains(p.first()),
        m[p.first()] == color,
        forall|x: HexCoord, n: HexCoord|
            #![trigger s.contains(x), x.spec_adjacent(n)]
            s.contains(x) && x.spec_adjacent(n) && m.contains_key(n) && m[n] == color
                ==> s.contains(n),
    ensures
        s.contains(p.last()),
    decreases p.len(),
{
    if p.len() >= 2 {
        let q = p.drop_first();
        assert((p[0]).spec_adjacent(p[1]));
        assert(m.contains_key(p[1]) && m[p[1]] == color);
        assert(s.contains(p[1]));
        assert(q.first() == p[1]);
        assert(chain_ok(m, q)) by {
            assert(forall|i: int| 0 <= i < q.len() ==> q[i] == p[i + 1]);
            assert(m[q[0]] == m[p[0]]);
            assert(forall|i: int|
                0 <= i < q.len() ==> m.contains_key(#[trigger] q[i]) && m[q[i]] == m[q[0]]);
            assert forall|i: int| 0 <= i < q.len() - 1 implies (#[trigger] q[i]).spec_adjacent(
                q[i + 1],
            ) by {
                assert((p[i + 1]).spec_adjacent(p[i + 2]));
            }
        }
        assert(m[q.first()] == color);
        lemma_chain_in_closed(m, q, s, color);
        assert(q.last() == p.last());
    }
}

/// A same-color set containing `c` and closed under matching adjacency
/// contains the whole blob of `c`.
pub proof fn lemma_blob_in_closed_set(
    m: Map<HexCoord, Marble>,
    c: HexCoord,
    s: Set<HexCoord>,
)
    requires
        m.contains_key(c),
        s.contains(c),
        forall|x: HexCoord, n: HexCoord|
            #![trigger s.contains(x), x.spec_adjacent(n)]
            s.contains(x) && x.spec_adjacent(n) && m.contains_key(n) && m[n] == m[c]
                ==> s.contains(n),
    ensures
        blob_of(m, c).subset_of(s),
{
    assert forall|x: HexCoord| blob_of(m, c).contains(x) implies s.contains(x) by {
        let p = choose|p: Seq<HexCoord>| chain_ok(m, p) && p.first() == c && p.last() == x;
        lemma_chain_in_closed(m, p, s, m[c]);
    }
}

} // verus!
