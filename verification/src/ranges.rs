//! Maps from disjoint ranges of program points.
use vstd::prelude::*;

verus! {

/// The program points from `from` up to, but not including, `to`.
#[derive(Clone, Copy, Debug, PartialEq, Eq, Structural)]
pub struct LiveRangeKey {
    pub from: u32,
    pub to: u32,
}

impl LiveRangeKey {
    pub open spec fn ok(self) -> bool {
        self.from <= self.to
    }

    /// The ranges have a point in common.
    pub open spec fn overlaps(self, other: LiveRangeKey) -> bool {
        self.to > other.from && self.from < other.to
    }

    /// The range lies behind all of `other`.
    pub open spec fn follows(self, other: LiveRangeKey) -> bool {
        !(self.to <= other.from) && self.from >= other.to
    }
}

/// A map from ranges that do not overlap, in their order.
pub struct RangeMap<V> {
    pub entries: Vec<(LiveRangeKey, V)>,
}

/// Each range ends before the next one begins.
pub open spec fn in_order<V>(s: Seq<(LiveRangeKey, V)>) -> bool {
    &&& forall|i: int| 0 <= i < s.len() ==> (#[trigger] s[i]).0.ok()
    &&& forall|i: int, j: int|
        0 <= i < j < s.len() ==> (#[trigger] s[i]).0.to <= (#[trigger] s[j]).0.from
}

/// Some range of the map overlaps `key`.
pub open spec fn hit<V>(s: Seq<(LiveRangeKey, V)>, key: LiveRangeKey) -> bool {
    exists|i: int| 0 <= i < s.len() && (#[trigger] s[i]).0.overlaps(key)
}

/// How many of the first `n` ranges lie before `key`.
pub open spec fn rank<V>(s: Seq<(LiveRangeKey, V)>, key: LiveRangeKey, n: nat) -> nat
    decreases n,
{
    if n == 0 {
        0
    } else if key.follows(s[n - 1].0) {
        n
    } else {
        rank(s, key, (n - 1) as nat)
    }
}

/// The map with one range more, at its place.
pub open spec fn inserted<V>(s: Seq<(LiveRangeKey, V)>, key: LiveRangeKey, v: V) -> Seq<
    (LiveRangeKey, V),
> {
    s.insert(rank(s, key, s.len()) as int, (key, v))
}

impl<V> View for RangeMap<V> {
    type V = Seq<(LiveRangeKey, V)>;

    open spec fn view(&self) -> Seq<(LiveRangeKey, V)> {
        self.entries@
    }
}

pub proof fn lemma_rank<V>(s: Seq<(LiveRangeKey, V)>, key: LiveRangeKey, n: nat)
    requires
        in_order(s),
        key.ok(),
        n <= s.len(),
    ensures
        rank(s, key, n) <= n,
        forall|i: int| 0 <= i < rank(s, key, n) ==> (#[trigger] s[i]).0.to <= key.from,
        forall|i: int| rank(s, key, n) <= i < n ==> !key.follows((#[trigger] s[i]).0),
    decreases n,
{
    if n > 0 {
        if key.follows(s[n - 1].0) {
            assert forall|i: int| 0 <= i < n implies (#[trigger] s[i]).0.to <= key.from by {
                assert(s[i].0.ok());
                assert(s[n - 1].0.ok());
                if i < n - 1 {
                    assert(s[i].0.to <= s[n - 1].0.from);
                }
            }
        } else {
            lemma_rank(s, key, (n - 1) as nat);
        }
    }
}

/// The rank is where the ranges that lie before `key` end.
proof fn lemma_rank_at<V>(s: Seq<(LiveRangeKey, V)>, key: LiveRangeKey, p: int)
    requires
        in_order(s),
        key.ok(),
        0 <= p <= s.len(),
        p > 0 ==> key.follows(s[p - 1].0),
        forall|i: int| p <= i < s.len() ==> !key.follows((#[trigger] s[i]).0),
    ensures
        rank(s, key, s.len()) == p,
{
    lemma_rank(s, key, s.len());
    let r = rank(s, key, s.len());
    if p < r {
        lemma_rank_last(s, key, s.len());
        assert(key.follows(s[r - 1].0));
    }
    if r < p {
        assert(!key.follows(s[p - 1].0));
    }
}

proof fn lemma_rank_last<V>(s: Seq<(LiveRangeKey, V)>, key: LiveRangeKey, n: nat)
    requires
        n <= s.len(),
    ensures
        rank(s, key, n) > 0 ==> key.follows(s[rank(s, key, n) - 1].0),
    decreases n,
{
    if n > 0 && !key.follows(s[n - 1].0) {
        lemma_rank_last(s, key, (n - 1) as nat);
    }
}

/// Where nothing overlaps `key`, inserting it keeps the ranges in order.
pub proof fn lemma_inserted<V>(s: Seq<(LiveRangeKey, V)>, key: LiveRangeKey, v: V)
    requires
        in_order(s),
        key.ok(),
        !hit(s, key),
    ensures
        in_order(inserted(s, key, v)),
        inserted(s, key, v).len() == s.len() + 1,
        forall|x: (LiveRangeKey, V)| #[trigger]
            inserted(s, key, v).contains(x) <==> s.contains(x) || x == (key, v),
{
    lemma_rank(s, key, s.len());
    let p = rank(s, key, s.len()) as int;
    let t = inserted(s, key, v);
    assert forall|i: int| p <= i < s.len() implies key.to <= (#[trigger] s[i]).0.from by {
        assert(s[i].0.ok());
        assert(!s[i].0.overlaps(key));
        assert(!key.follows(s[i].0));
    }
    assert forall|i: int| 0 <= i < t.len() implies (#[trigger] t[i]).0.ok() by {
        if i < p {
            assert(t[i] == s[i]);
        } else if i > p {
            assert(t[i] == s[i - 1]);
        }
    }
    assert forall|i: int, j: int| 0 <= i < j < t.len() implies (#[trigger] t[i]).0.to <= (
    #[trigger] t[j]).0.from by {
        if i < p {
            assert(t[i] == s[i]);
        } else if i > p {
            assert(t[i] == s[i - 1]);
        }
        if j < p {
            assert(t[j] == s[j]);
        } else if j > p {
            assert(t[j] == s[j - 1]);
        }
    }
    assert forall|x: (LiveRangeKey, V)| #[trigger] t.contains(x) <==> s.contains(x) || x == (
        key,
        v,
    ) by {
        if t.contains(x) {
            let i = choose|i: int| 0 <= i < t.len() && t[i] == x;
            if i < p {
                assert(s[i] == x);
            } else if i > p {
                assert(s[i - 1] == x);
            }
        }
        if s.contains(x) {
            let i = choose|i: int| 0 <= i < s.len() && s[i] == x;
            if i < p {
                assert(t[i] == x);
            } else {
                assert(t[i + 1] == x);
            }
        }
        assert(t[p] == (key, v));
    }
}

impl<V: Copy> RangeMap<V> {
    pub open spec fn wf(&self) -> bool {
        in_order(self@)
    }

    /// A map without ranges.
    pub fn new() -> (r: Self)
        ensures
            r@ == Seq::<(LiveRangeKey, V)>::empty(),
            r.wf(),
    {
        RangeMap { entries: Vec::new() }
    }

    /// The number of ranges that lie before `key`.
    fn position(&self, key: LiveRangeKey) -> (p: usize)
        requires
            self.wf(),
            key.ok(),
        ensures
            p == rank(self@, key, self@.len()),
            p <= self@.len(),
    {
        let mut lo: usize = 0;
        let mut hi: usize = self.entries.len();
        while lo < hi
            invariant
                self.wf(),
                key.ok(),
                lo <= hi <= self@.len(),
                lo > 0 ==> key.follows(self@[lo - 1].0),
                forall|i: int| hi <= i < self@.len() ==> !key.follows((#[trigger] self@[i]).0),
            decreases hi - lo,
        {
            let mid = lo + (hi - lo) / 2;
            let k = self.entries[mid].0;
            assert(self@[mid as int].0.ok());
            if !(key.to <= k.from) && key.from >= k.to {
                lo = mid + 1;
            } else {
                proof {
                    assert forall|i: int| mid <= i < self@.len() implies !key.follows(
                        (#[trigger] self@[i]).0,
                    ) by {
                        if i > mid {
                            assert(self@[mid as int].0.to <= self@[i].0.from);
                            assert(self@[i].0.ok());
                        }
                    }
                }
                hi = mid;
            }
        }
        proof {
            lemma_rank_at(self@, key, lo as int);
            lemma_rank(self@, key, self@.len());
        }
        lo
    }

    /// Whether a range of the map overlaps `key`.
    pub fn contains_key(&self, key: LiveRangeKey) -> (r: bool)
        requires
            self.wf(),
            key.ok(),
        ensures
            r == hit(self@, key),
    {
        let p = self.position(key);
        proof {
            lemma_rank(self@, key, self@.len());
        }
        if p == self.entries.len() {
            assert forall|i: int| 0 <= i < self@.len() implies !(
            #[trigger] self@[i]).0.overlaps(key) by {}
            return false;
        }
        let k = self.entries[p].0;
        let r = k.to > key.from && k.from < key.to;
        proof {
            if r {
                assert(self@[p as int].0.overlaps(key));
            } else {
                assert forall|i: int| 0 <= i < self@.len() implies !(
                #[trigger] self@[i]).0.overlaps(key) by {
                    if i > p {
                        assert(self@[p as int].0.ok());
                        assert(self@[i].0.ok());
                        assert(self@[p as int].0.to <= self@[i].0.from);
                        assert(!key.follows(self@[p as int].0));
                    }
                }
            }
        }
        r
    }

    /// Adds a range.
    pub fn insert(&mut self, key: LiveRangeKey, v: V)
        requires
            old(self).wf(),
            key.ok(),
            !hit(old(self)@, key),
        ensures
            final(self)@ == inserted(old(self)@, key, v),
            final(self).wf(),
    {
        let p = self.position(key);
        proof {
            lemma_inserted(self@, key, v);
        }
        self.entries.insert(p, (key, v));
    }
}

/// Two ranges that are not empty overlap if and only if they share a point.
pub proof fn overlapping_ranges_share_a_point(a: LiveRangeKey, b: LiveRangeKey)
    requires
        a.from < a.to,
        b.from < b.to,
    ensures
        a.overlaps(b) <==> exists|x: u32| a.from <= x < a.to && #[trigger] holds_point(b, x),
{
    if a.overlaps(b) {
        let x = if a.from < b.from {
            b.from
        } else {
            a.from
        };
        assert(holds_point(b, x));
    }
}

/// The range holds the point `x`.
pub open spec fn holds_point(r: LiveRangeKey, x: u32) -> bool {
    r.from <= x < r.to
}

} // verus!
