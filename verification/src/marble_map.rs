//! The board's marble storage: a coordinate-to-marble map kept as an
//! association list with unique keys.  The order of the entries is an
//! implementation detail, but it is exposed through [`MarbleMap::kvs`] so
//! that iteration over the map can be reasoned about deterministically.

use vstd::prelude::*;

use crate::hex::HexCoord;
use crate::marble::Marble;

verus! {

/// The map a key-value sequence denotes (later entries would win, but
/// well-formed sequences have unique keys, so nothing shadows).
pub open spec fn seq_to_map(s: Seq<(HexCoord, Marble)>) -> Map<HexCoord, Marble>
    decreases s.len(),
{
    if s.len() == 0 {
        Map::empty()
    } else {
        seq_to_map(s.drop_last()).insert(s.last().0, s.last().1)
    }
}

/// No key occurs twice.
pub open spec fn unique_keys(s: Seq<(HexCoord, Marble)>) -> bool {
    forall|i: int, j: int| 0 <= i < j < s.len() ==> (#[trigger] s[i]).0 != (#[trigger] s[j]).0
}

/// Membership in the denoted map is membership among the keys.
pub proof fn lemma_seq_to_map_contains(s: Seq<(HexCoord, Marble)>, k: HexCoord)
    ensures
        seq_to_map(s).contains_key(k) <==> exists|i: int|
            0 <= i < s.len() && (#[trigger] s[i]).0 == k,
    decreases s.len(),
{
    if s.len() > 0 {
        lemma_seq_to_map_contains(s.drop_last(), k);
        if s.last().0 == k {
            assert((s[s.len() - 1]).0 == k);
        } else if seq_to_map(s).contains_key(k) {
            let i = choose|i: int| 0 <= i < s.drop_last().len() && (#[trigger] s.drop_last()[i]).0
                == k;
            assert((s[i]).0 == k);
        } else if exists|i: int| 0 <= i < s.len() && (#[trigger] s[i]).0 == k {
            let i = choose|i: int| 0 <= i < s.len() && (#[trigger] s[i]).0 == k;
            assert(i < s.len() - 1);
            assert((s.drop_last()[i]).0 == k);
        }
    }
}

/// With unique keys, each entry is what the denoted map stores for its key.
pub proof fn lemma_seq_to_map_index(s: Seq<(HexCoord, Marble)>, i: int)
    requires
        unique_keys(s),
        0 <= i < s.len(),
    ensures
        seq_to_map(s).contains_key((s[i]).0),
        seq_to_map(s)[(s[i]).0] == (s[i]).1,
    decreases s.len(),
{
    if i == s.len() - 1 {
    } else {
        assert(forall|a: int, b: int|
            0 <= a < b < s.drop_last().len() ==> (#[trigger] s.drop_last()[a]).0
                != (#[trigger] s.drop_last()[b]).0);
        lemma_seq_to_map_index(s.drop_last(), i);
        assert((s[s.len() - 1]).0 != (s[i]).0);
    }
}

/// Appending a fresh entry inserts it into the denoted map.
pub proof fn lemma_seq_to_map_push(s: Seq<(HexCoord, Marble)>, e: (HexCoord, Marble))
    ensures
        seq_to_map(s.push(e)) == seq_to_map(s).insert(e.0, e.1),
{
    assert(s.push(e).drop_last() =~= s);
    assert(s.push(e).last() == e);
}

/// Removing the entry at `i` removes its key from the denoted map.
pub proof fn lemma_seq_to_map_remove(s: Seq<(HexCoord, Marble)>, i: int)
    requires
        unique_keys(s),
        0 <= i < s.len(),
    ensures
        unique_keys(s.remove(i)),
        seq_to_map(s.remove(i)) =~= seq_to_map(s).remove((s[i]).0),
{
    let t = s.remove(i);
    let k = (s[i]).0;
    assert forall|a: int, b: int| 0 <= a < b < t.len() implies (#[trigger] t[a]).0
        != (#[trigger] t[b]).0 by {
        let a2: int = if a < i { a } else { a + 1 };
        let b2: int = if b < i { b } else { b + 1 };
        assert(t[a] == s[a2] && t[b] == s[b2]);
    }
    assert forall|k2: HexCoord| #[trigger]
        seq_to_map(t).contains_key(k2)
            == seq_to_map(s).remove(k).contains_key(k2) by {
        lemma_seq_to_map_contains(t, k2);
        lemma_seq_to_map_contains(s, k2);
        if seq_to_map(t).contains_key(k2) {
            let j = choose|j: int| 0 <= j < t.len() && (#[trigger] t[j]).0 == k2;
            let j2: int = if j < i { j } else { j + 1 };
            assert((s[j2]).0 == k2);
            assert(k2 != k);
        } else if seq_to_map(s).remove(k).contains_key(k2) {
            let j = choose|j: int| 0 <= j < s.len() && (#[trigger] s[j]).0 == k2;
            assert(j != i);
            let j2: int = if j < i { j } else { j - 1 };
            assert((t[j2]).0 == k2);
        }
    }
    assert forall|k2: HexCoord|
        seq_to_map(t).contains_key(k2) && seq_to_map(s).remove(k).contains_key(k2) implies
        #[trigger] seq_to_map(t)[k2] == seq_to_map(s).remove(k)[k2] by {
        lemma_seq_to_map_contains(t, k2);
        let j = choose|j: int| 0 <= j < t.len() && (#[trigger] t[j]).0 == k2;
        let j2: int = if j < i { j } else { j + 1 };
        assert(t[j] == s[j2]);
        lemma_seq_to_map_index(t, j);
        lemma_seq_to_map_index(s, j2);
    }
}

/// With unique keys the denoted map has exactly one entry per element.
pub proof fn lemma_seq_to_map_len(s: Seq<(HexCoord, Marble)>)
    requires
        unique_keys(s),
    ensures
        seq_to_map(s).dom().finite(),
        seq_to_map(s).dom().len() == s.len(),
    decreases s.len(),
{
    if s.len() > 0 {
        assert(forall|a: int, b: int|
            0 <= a < b < s.drop_last().len() ==> (#[trigger] s.drop_last()[a]).0
                != (#[trigger] s.drop_last()[b]).0);
        lemma_seq_to_map_len(s.drop_last());
        lemma_seq_to_map_contains(s.drop_last(), s.last().0);
        assert(forall|j: int| 0 <= j < s.len() - 1 ==> (#[trigger] s[j]).0 != s.last().0);
        assert(forall|j: int| 0 <= j < s.drop_last().len() ==> s.drop_last()[j] == s[j]);
        assert(!seq_to_map(s.drop_last()).contains_key(s.last().0));
    }
}

/// The cells holding a marble of the given color.
pub open spec fn color_keys(m: Map<HexCoord, Marble>, c: Marble) -> Set<HexCoord> {
    m.dom().filter(|k: HexCoord| m[k] == c)
}

/// How many marbles of the given color the map holds.
pub open spec fn color_count(m: Map<HexCoord, Marble>, c: Marble) -> nat {
    color_keys(m, c).len()
}

/// The colors stored in a key-value sequence, in entry order.
pub open spec fn vals_of(s: Seq<(HexCoord, Marble)>) -> Seq<Marble> {
    s.map_values(|e: (HexCoord, Marble)| e.1)
}

/// Placing a marble on a fresh cell raises its color's count by one and no
/// other.
pub proof fn lemma_color_count_insert_fresh(
    m: Map<HexCoord, Marble>,
    c: HexCoord,
    color: Marble,
    col: Marble,
)
    requires
        m.dom().finite(),
        !m.contains_key(c),
    ensures
        color_count(m.insert(c, color), col) == color_count(m, col) + (if col == color {
            1int
        } else {
            0int
        }),
{
    let m1 = m.insert(c, color);
    m.dom().lemma_len_filter(|k: HexCoord| m[k] == col);
    m1.dom().lemma_len_filter(|k: HexCoord| m1[k] == col);
    if col == color {
        assert(color_keys(m1, col) =~= color_keys(m, col).insert(c));
        assert(!color_keys(m, col).contains(c));
    } else {
        assert(color_keys(m1, col) =~= color_keys(m, col));
    }
}

/// With unique keys, the map counts a color exactly as often as the entry
/// sequence carries it.
pub proof fn lemma_color_count_vals(s: Seq<(HexCoord, Marble)>, col: Marble)
    requires
        unique_keys(s),
    ensures
        color_count(seq_to_map(s), col) == vals_of(s).to_multiset().count(col),
    decreases s.len(),
{
    broadcast use vstd::seq_lib::group_to_multiset_ensures;

    lemma_seq_to_map_len(s);
    if s.len() == 0 {
        assert(color_keys(seq_to_map(s), col) =~= Set::<HexCoord>::empty());
        assert(vals_of(s) =~= Seq::<Marble>::empty());
        assert(vals_of(s).to_multiset().count(col) == 0) by {
            assert(vals_of(s).to_multiset().len() == 0);
        }
    } else {
        let dl = s.drop_last();
        let e = s.last();
        assert(forall|a: int, b: int|
            0 <= a < b < dl.len() ==> (#[trigger] dl[a]).0 != (#[trigger] dl[b]).0);
        lemma_color_count_vals(dl, col);
        lemma_seq_to_map_len(dl);
        lemma_seq_to_map_contains(dl, e.0);
        assert(forall|j: int| 0 <= j < s.len() - 1 ==> (#[trigger] s[j]).0 != e.0);
        assert(forall|j: int| 0 <= j < dl.len() ==> dl[j] == s[j]);
        assert(!seq_to_map(dl).contains_key(e.0));
        lemma_color_count_insert_fresh(seq_to_map(dl), e.0, e.1, col);
        assert(vals_of(s) =~= vals_of(dl).push(e.1));
        assert(vals_of(dl).push(e.1).to_multiset() =~= vals_of(dl).to_multiset().insert(e.1));
    }
}

/// The entries left after dropping one color.
pub open spec fn drop_color(s: Seq<(HexCoord, Marble)>, color: Marble) -> Seq<(HexCoord, Marble)> {
    s.filter(|e: (HexCoord, Marble)| e.1 != color)
}

/// Filtering one color out of the entries removes exactly that color from
/// the denoted map, and removes exactly `color_count` of its entries.
pub proof fn lemma_filter_color(s: Seq<(HexCoord, Marble)>, color: Marble)
    requires
        unique_keys(s),
    ensures
        unique_keys(drop_color(s, color)),
        forall|k: HexCoord| #[trigger]
            seq_to_map(drop_color(s, color)).contains_key(k) <==> seq_to_map(s).contains_key(k)
                && seq_to_map(s)[k] != color,
        forall|k: HexCoord|
            seq_to_map(drop_color(s, color)).contains_key(k) ==> #[trigger] seq_to_map(
                drop_color(s, color),
            )[k] == seq_to_map(s)[k],
        seq_to_map(drop_color(s, color)).dom().len() + color_count(seq_to_map(s), color)
            == seq_to_map(s).dom().len(),
    decreases s.len(),
{
    reveal(Seq::filter);
    broadcast use vstd::seq_lib::group_filter_ensures;

    let m = seq_to_map(s);
    lemma_seq_to_map_len(s);
    m.dom().lemma_len_filter(|k: HexCoord| m[k] == color);
    if s.len() == 0 {
        assert(color_keys(m, color) =~= Set::<HexCoord>::empty());
        assert(drop_color(s, color) == s);
    } else {
        let dl = s.drop_last();
        let e = s.last();
        let mdl = seq_to_map(dl);
        assert(forall|a: int, b: int|
            0 <= a < b < dl.len() ==> (#[trigger] dl[a]).0 != (#[trigger] dl[b]).0);
        lemma_filter_color(dl, color);
        lemma_seq_to_map_len(dl);
        lemma_seq_to_map_contains(dl, e.0);
        assert(forall|j: int| 0 <= j < s.len() - 1 ==> (#[trigger] s[j]).0 != e.0);
        assert(forall|j: int| 0 <= j < dl.len() ==> dl[j] == s[j]);
        assert(!mdl.contains_key(e.0));
        mdl.dom().lemma_len_filter(|k: HexCoord| mdl[k] == color);
        let fdl = drop_color(dl, color);
        assert(forall|a: int, b: int|
            0 <= a < b < fdl.len() ==> (#[trigger] fdl[a]).0 != (#[trigger] fdl[b]).0);
        lemma_seq_to_map_contains(fdl, e.0);
        assert(drop_color(s, color) == if e.1 != color {
            fdl.push(e)
        } else {
            fdl
        });
        assert(!seq_to_map(fdl).contains_key(e.0));
        assert forall|j: int| 0 <= j < fdl.len() implies (#[trigger] fdl[j]).0 != e.0 by {
            if (fdl[j]).0 == e.0 {
                assert(seq_to_map(fdl).contains_key(e.0));
                assert(false);
            }
        }
        if e.1 != color {
            assert(drop_color(s, color) == fdl.push(e));
            lemma_seq_to_map_push(fdl, e);
            assert(!seq_to_map(fdl).contains_key(e.0));
            lemma_seq_to_map_len(fdl);
            assert(unique_keys(drop_color(s, color))) by {
                let f = drop_color(s, color);
                assert forall|a: int, b: int| 0 <= a < b < f.len() implies (#[trigger] f[a]).0
                    != (#[trigger] f[b]).0 by {
                    if b < f.len() - 1 {
                        assert(f[a] == fdl[a] && f[b] == fdl[b]);
                    } else {
                        assert(f[b] == e);
                        assert(f[a] == fdl[a]);
                    }
                }
            }
            lemma_seq_to_map_len(drop_color(s, color));
            assert(color_keys(m, color) =~= color_keys(mdl, color));
        } else {
            assert(drop_color(s, color) == fdl);
            assert(color_keys(m, color) =~= color_keys(mdl, color).insert(e.0));
            assert(!color_keys(mdl, color).contains(e.0));
            assert forall|k: HexCoord| #[trigger]
                seq_to_map(drop_color(s, color)).contains_key(k) implies m.contains_key(k)
                && m[k] != color by {}
            assert forall|k: HexCoord| m.contains_key(k) && m[k] != color implies #[trigger]
                seq_to_map(drop_color(s, color)).contains_key(k) by {
                assert(k != e.0);
                assert(mdl.contains_key(k) && mdl[k] != color);
            }
        }
    }
}

/// The board's marble map.
pub struct MarbleMap {
    entries: Vec<(HexCoord, Marble)>,
}

impl View for MarbleMap {
    type V = Map<HexCoord, Marble>;

    open spec fn view(&self) -> Map<HexCoord, Marble> {
        seq_to_map(self.kvs())
    }
}

impl MarbleMap {
    /// The underlying key-value sequence.
    pub closed spec fn kvs(self) -> Seq<(HexCoord, Marble)> {
        self.entries@
    }

    /// Keys are unique.
    pub open spec fn wf(self) -> bool {
        unique_keys(self.kvs())
    }

    pub fn new() -> (m: MarbleMap)
        ensures
            m.wf(),
            m.kvs() == Seq::<(HexCoord, Marble)>::empty(),
            m@ == Map::<HexCoord, Marble>::empty(),
    {
        MarbleMap { entries: Vec::new() }
    }

    /// Index of the entry holding `c`, if any.
    fn find_index(&self, c: &HexCoord) -> (r: Option<usize>)
        ensures
            match r {
                Some(i) => i < self.kvs().len() && (self.kvs()[i as int]).0 == *c,
                None => forall|i: int| 0 <= i < self.kvs().len() ==> (#[trigger] self.kvs()[i]).0 != *c,
            },
    {
        let n = self.entries.len();
        let mut i: usize = 0;
        while i < n
            invariant
                n == self.kvs().len(),
                i <= n,
                forall|j: int| 0 <= j < i ==> (#[trigger] self.kvs()[j]).0 != *c,
            decreases n - i,
        {
            if self.entries[i].0 == *c {
                return Some(i);
            }
            i += 1;
        }
        None
    }

    pub fn contains_key(&self, c: &HexCoord) -> (r: bool)
        ensures
            r == self@.contains_key(*c),
    {
        proof {
            lemma_seq_to_map_contains(self.kvs(), *c);
        }
        self.find_index(c).is_some()
    }

    pub fn get(&self, c: &HexCoord) -> (r: Option<&Marble>)
        requires
            self.wf(),
        ensures
            match r {
                Some(m) => self@.contains_key(*c) && *m == self@[*c],
                None => !self@.contains_key(*c),
            },
    {
        proof {
            lemma_seq_to_map_contains(self.kvs(), *c);
        }
        match self.find_index(c) {
            Some(i) => {
                proof {
                    lemma_seq_to_map_index(self.kvs(), i as int);
                }
                Some(&self.entries[i].1)
            },
            None => None,
        }
    }

    /// Insert or overwrite.
    pub fn insert(&mut self, c: HexCoord, m: Marble)
        requires
            old(self).wf(),
        ensures
            final(self).wf(),
            final(self)@ == old(self)@.insert(c, m),
            !old(self)@.contains_key(c) ==> final(self).kvs() == old(self).kvs().push((c, m)),
            old(self)@.contains_key(c) ==> exists|i: int|
                0 <= i < old(self).kvs().len() && (#[trigger] old(self).kvs()[i]).0 == c
                    && final(self).kvs() == old(self).kvs().remove(i).push((c, m)),
    {
        proof {
            lemma_seq_to_map_contains(self.kvs(), c);
        }
        match self.find_index(&c) {
            Some(i) => {
                let ghost s0 = self.kvs();
                proof {
                    lemma_seq_to_map_remove(s0, i as int);
                    lemma_seq_to_map_push(s0.remove(i as int), (c, m));
                }
                let _ = self.entries.remove(i);
                self.entries.push((c, m));
                proof {
                    let t = s0.remove(i as int);
                    assert(self.kvs() == t.push((c, m)));
                    assert forall|a: int, b: int| 0 <= a < b < self.kvs().len() implies (
                    #[trigger] self.kvs()[a]).0 != (#[trigger] self.kvs()[b]).0 by {
                        lemma_seq_to_map_contains(t, (self.kvs()[a]).0);
                        assert(b < self.kvs().len() - 1 ==> self.kvs()[b] == t[b]);
                        assert(a < self.kvs().len() - 1 ==> self.kvs()[a] == t[a]);
                    }
                    assert(self@ =~= old(self)@.insert(c, m));
                }
            },
            None => {
                proof {
                    lemma_seq_to_map_push(self.kvs(), (c, m));
                }
                self.entries.push((c, m));
                proof {
                    let s0 = old(self).kvs();
                    assert forall|a: int, b: int| 0 <= a < b < self.kvs().len() implies (
                    #[trigger] self.kvs()[a]).0 != (#[trigger] self.kvs()[b]).0 by {
                        assert(b < self.kvs().len() - 1 ==> self.kvs()[b] == s0[b]);
                        assert(a < self.kvs().len() - 1 ==> self.kvs()[a] == s0[a]);
                    }
                }
            },
        }
    }

    /// Remove the marble at `c`, if any.
    pub fn remove(&mut self, c: &HexCoord) -> (r: Option<Marble>)
        requires
            old(self).wf(),
        ensures
            final(self).wf(),
            final(self)@ == old(self)@.remove(*c),
            match r {
                Some(m) => old(self)@.contains_key(*c) && m == old(self)@[*c] && exists|i: int|
                    0 <= i < old(self).kvs().len() && (#[trigger] old(self).kvs()[i]) == (*c, m)
                        && final(self).kvs() == old(self).kvs().remove(i),
                None => !old(self)@.contains_key(*c) && final(self).kvs() == old(self).kvs(),
            },
    {
        proof {
            lemma_seq_to_map_contains(self.kvs(), *c);
        }
        match self.find_index(c) {
            Some(i) => {
                proof {
                    lemma_seq_to_map_index(self.kvs(), i as int);
                    lemma_seq_to_map_remove(self.kvs(), i as int);
                }
                let e = self.entries.remove(i);
                proof {
                    assert(old(self)@.remove(*c) =~= self@);
                }
                Some(e.1)
            },
            None => {
                proof {
                    assert(old(self)@.remove(*c) =~= self@);
                }
                None
            },
        }
    }

    pub fn len(&self) -> (n: usize)
        requires
            self.wf(),
        ensures
            n == self.kvs().len(),
            n == self@.dom().len(),
    {
        proof {
            lemma_seq_to_map_len(self.kvs());
        }
        self.entries.len()
    }

    pub fn is_empty(&self) -> (r: bool)
        requires
            self.wf(),
        ensures
            r <==> self@ =~= Map::<HexCoord, Marble>::empty(),
    {
        proof {
            lemma_seq_to_map_len(self.kvs());
            if self.kvs().len() > 0 {
                lemma_seq_to_map_index(self.kvs(), 0);
            }
        }
        self.entries.len() == 0
    }

    /// Remove every marble of the given color.
    pub fn remove_color(&mut self, color: Marble)
        requires
            old(self).wf(),
        ensures
            final(self).wf(),
            final(self).kvs() == drop_color(old(self).kvs(), color),
            forall|k: HexCoord| #[trigger]
                final(self)@.contains_key(k) <==> old(self)@.contains_key(k) && old(self)@[k]
                    != color,
            forall|k: HexCoord| #[trigger]
                final(self)@.contains_key(k) ==> final(self)@[k] == old(self)@[k],
            final(self)@.dom().len() + color_count(old(self)@, color) == old(self)@.dom().len(),
    {
        let ghost s0 = self.kvs();
        let n = self.entries.len();
        let mut out: Vec<(HexCoord, Marble)> = Vec::new();
        let mut i: usize = 0;
        proof {
            reveal(Seq::filter);
            assert(s0.take(0) =~= Seq::<(HexCoord, Marble)>::empty());
            assert(drop_color(s0.take(0), color) =~= Seq::<(HexCoord, Marble)>::empty());
        }
        while i < n
            invariant
                n == s0.len(),
                i <= n,
                self.kvs() == s0,
                out@ == drop_color(s0.take(i as int), color),
            decreases n - i,
        {
            proof {
                reveal(Seq::filter);
                assert(s0.take(i + 1).drop_last() =~= s0.take(i as int));
                assert(s0.take(i + 1).last() == s0[i as int]);
                assert(drop_color(s0.take(i + 1), color) == if (s0[i as int]).1 != color {
                    drop_color(s0.take(i as int), color).push(s0[i as int])
                } else {
                    drop_color(s0.take(i as int), color)
                });
            }
            let e = self.entries[i];
            if !(e.1 == color) {
                out.push(e);
            }
            i += 1;
        }
        proof {
            assert(s0.take(n as int) =~= s0);
        }
        self.entries = out;
        proof {
            lemma_filter_color(s0, color);
        }
    }

    /// A snapshot of the keys, in entry order.
    pub fn keys(&self) -> (r: Vec<HexCoord>)
        ensures
            r@.len() == self.kvs().len(),
            forall|i: int| 0 <= i < r@.len() ==> r@[i] == (#[trigger] self.kvs()[i]).0,
    {
        let n = self.entries.len();
        let mut out: Vec<HexCoord> = Vec::new();
        let mut i: usize = 0;
        while i < n
            invariant
                n == self.kvs().len(),
                i <= n,
                out@.len() == i,
                forall|j: int| 0 <= j < i ==> out@[j] == (#[trigger] self.kvs()[j]).0,
            decreases n - i,
        {
            out.push(self.entries[i].0);
            i += 1;
        }
        out
    }
}

} // verus!
