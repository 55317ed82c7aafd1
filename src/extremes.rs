//! A bounded record of the smallest and the largest numbers seen.
//!
//! Numbers are held as `i64` keys; a caller with another kind of number maps
//! it to keys in the same order.
use vstd::prelude::*;

verus! {

/// How often `y` occurs in `s`.
pub open spec fn count(s: Seq<i64>, y: i64) -> nat
    decreases s.len(),
{
    if s.len() == 0 {
        0
    } else {
        count(s.drop_last(), y) + if s.last() == y {
            1nat
        } else {
            0nat
        }
    }
}

/// `a` comes strictly before `b`: it is smaller, or larger where the largest
/// come first.
pub open spec fn precedes(a: i64, b: i64, largest: bool) -> bool {
    if largest {
        a > b
    } else {
        a < b
    }
}

/// No element comes before one to its left.
pub open spec fn ordered(s: Seq<i64>, largest: bool) -> bool {
    forall|i: int, j: int| 0 <= i < j < s.len() ==> !precedes(#[trigger] s[j], #[trigger] s[i], largest)
}

pub open spec fn min_nat(a: nat, b: nat) -> nat {
    if a < b {
        a
    } else {
        b
    }
}

/// `kept` is, in order, the `limit` numbers of `seen` that come first: as
/// many as `limit` allows, each no more often than in `seen`, and every
/// number that comes before the last one kept is kept as often as it was seen.
pub open spec fn keeps_extremes(kept: Seq<i64>, seen: Seq<i64>, limit: nat, largest: bool) -> bool {
    &&& ordered(kept, largest)
    &&& kept.len() == min_nat(limit, seen.len())
    &&& forall|y: i64| #[trigger] count(kept, y) <= count(seen, y)
    &&& kept.len() < limit ==> forall|y: i64| #[trigger] count(kept, y) == count(seen, y)
    &&& kept.len() > 0 ==> forall|y: i64|
        precedes(y, kept.last(), largest) ==> #[trigger] count(kept, y) == count(seen, y)
}

proof fn lemma_count_insert(s: Seq<i64>, p: int, x: i64, y: i64)
    requires
        0 <= p <= s.len(),
    ensures
        count(s.insert(p, x), y) == count(s, y) + if x == y {
            1nat
        } else {
            0nat
        },
    decreases s.len(),
{
    let t = s.insert(p, x);
    assert(t.len() == s.len() + 1);
    if p == s.len() {
        assert(t.drop_last() =~= s);
        assert(t.last() == x);
    } else {
        assert(t.drop_last() =~= s.drop_last().insert(p, x));
        assert(t.last() == s.last());
        lemma_count_insert(s.drop_last(), p, x, y);
    }
}

/// `x` noted in `kept`, which keeps the extremes of `seen`.
fn keep(kept: &mut Vec<i64>, x: i64, limit: usize, largest: bool, Ghost(seen): Ghost<Seq<i64>>)
    requires
        keeps_extremes(old(kept)@, seen, limit as nat, largest),
    ensures
        keeps_extremes(final(kept)@, seen.push(x), limit as nat, largest),
{
    let ghost seen2 = seen.push(x);
    assert(seen2.drop_last() =~= seen);
    assert forall|y: i64| #[trigger] count(seen2, y) == count(seen, y) + if x == y {
        1nat
    } else {
        0nat
    } by {}
    if limit == 0 {
        return;
    }
    let ghost k0 = kept@;
    let ghost was_full = kept.len() == limit;
    if kept.len() == limit {
        let last = kept[kept.len() - 1];
        let before = if largest {
            x > last
        } else {
            x < last
        };
        if !before {
            return;
        }
        kept.pop();
        assert(kept@ =~= k0.drop_last());
    }
    let ghost k1 = kept@;
    let mut p: usize = 0;
    while p < kept.len()
        invariant
            p <= kept.len(),
            kept@ == k1,
            forall|j: int| 0 <= j < p ==> !precedes(x, #[trigger] k1[j], largest),
        ensures
            p <= k1.len(),
            forall|j: int| 0 <= j < p ==> !precedes(x, #[trigger] k1[j], largest),
            p < k1.len() ==> precedes(x, k1[p as int], largest),
        decreases kept.len() - p,
    {
        let here = kept[p];
        let stop = if largest {
            x > here
        } else {
            x < here
        };
        if stop {
            break;
        }
        p = p + 1;
    }
    kept.insert(p, x);
    proof {
        assert forall|y: i64| #[trigger] count(kept@, y) == count(k1, y) + if x == y {
            1nat
        } else {
            0nat
        } by {
            lemma_count_insert(k1, p as int, x, y);
        }
        assert(ordered(kept@, largest)) by {
            assert forall|i: int, j: int| 0 <= i < j < kept@.len() implies !precedes(
                #[trigger] kept@[j],
                #[trigger] kept@[i],
                largest,
            ) by {
                if i < p && j < p {
                    assert(kept@[i] == k1[i] && kept@[j] == k1[j]);
                } else if i < p && j == p {
                    assert(kept@[i] == k1[i]);
                } else if i < p {
                    assert(kept@[i] == k1[i] && kept@[j] == k1[j - 1]);
                } else if i == p {
                    assert(kept@[j] == k1[j - 1]);
                    if j - 1 > p {
                        assert(!precedes(k1[j - 1], k1[p as int], largest));
                    }
                } else {
                    assert(kept@[i] == k1[i - 1] && kept@[j] == k1[j - 1]);
                }
            }
        }
        let k2 = kept@;
        if was_full {
            let m = k0.last();
            assert(k1 == k0.drop_last());
            assert(precedes(x, m, largest));
            assert forall|y: i64| #[trigger] count(k1, y) == count(k0, y) - if m == y {
                1int
            } else {
                0int
            } by {}
            assert(seen.len() >= limit);
            assert(k2.len() == limit);
            assert forall|y: i64| precedes(y, k2.last(), largest) implies precedes(y, m, largest) by {
                if p < k1.len() {
                    assert(k2.last() == k1.last());
                    if k1.len() >= 1 {
                        assert(k1.last() == k0[k0.len() - 2]);
                        assert(!precedes(k0[k0.len() - 1], k0[k0.len() - 2], largest));
                    }
                } else {
                    assert(k2.last() == x);
                }
            }
            assert forall|y: i64| precedes(y, k2.last(), largest) implies #[trigger] count(k2, y)
                == count(seen2, y) by {
                assert(precedes(y, m, largest));
                assert(count(k0, y) == count(seen, y));
            }
        } else {
            assert(k1.len() == seen.len());
            assert forall|y: i64| #[trigger] count(k2, y) == count(seen2, y) by {
                assert(count(k1, y) == count(seen, y));
            }
        }
    }
}

/// Count of numbers seen, and the `limit` smallest and largest of them.
pub struct JsonNumbersStats {
    limit: usize,
    minimums: Vec<i64>,
    maximums: Vec<i64>,
    number: usize,
    seen: Ghost<Seq<i64>>,
}

impl JsonNumbersStats {
    /// The numbers seen, in order.
    pub closed spec fn seen(&self) -> Seq<i64> {
        self.seen@
    }

    /// How many smallest and largest numbers are kept.
    pub closed spec fn limit(&self) -> nat {
        self.limit as nat
    }

    /// The smallest numbers kept, smallest first.
    pub closed spec fn smallest(&self) -> Seq<i64> {
        self.minimums@
    }

    /// The largest numbers kept, largest first.
    pub closed spec fn largest(&self) -> Seq<i64> {
        self.maximums@
    }

    /// The kept numbers are the extremes of those seen, and the count is theirs.
    pub closed spec fn wf(&self) -> bool {
        &&& keeps_extremes(self.minimums@, self.seen@, self.limit as nat, false)
        &&& keeps_extremes(self.maximums@, self.seen@, self.limit as nat, true)
        &&& self.number == self.seen@.len()
    }

    /// A record that keeps up to `limit` smallest and largest numbers.
    pub fn new(limit: usize) -> (r: Self)
        ensures
            r.wf(),
            r.seen() == Seq::<i64>::empty(),
            r.limit() == limit,
    {
        JsonNumbersStats {
            limit,
            minimums: Vec::new(),
            maximums: Vec::new(),
            number: 0,
            seen: Ghost(Seq::empty()),
        }
    }

    /// Notes one more number.
    pub fn add(&mut self, key: i64)
        requires
            old(self).wf(),
            old(self).seen().len() < usize::MAX,
        ensures
            final(self).wf(),
            final(self).seen() == old(self).seen().push(key),
            final(self).limit() == old(self).limit(),
    {
        keep(&mut self.minimums, key, self.limit, false, Ghost(self.seen@));
        keep(&mut self.maximums, key, self.limit, true, Ghost(self.seen@));
        self.number = self.number + 1;
        self.seen = Ghost(self.seen@.push(key));
    }

    /// How many numbers were seen.
    pub fn count(&self) -> (r: usize)
        requires
            self.wf(),
        ensures
            r == self.seen().len(),
    {
        self.number
    }

    /// The smallest numbers seen, smallest first.
    pub fn minimums(&self) -> (r: &Vec<i64>)
        requires
            self.wf(),
        ensures
            r@ == self.smallest(),
            keeps_extremes(r@, self.seen(), self.limit(), false),
    {
        &self.minimums
    }

    /// The largest numbers seen, largest first.
    pub fn maximums(&self) -> (r: &Vec<i64>)
        requires
            self.wf(),
        ensures
            r@ == self.largest(),
            keeps_extremes(r@, self.seen(), self.limit(), true),
    {
        &self.maximums
    }
}

proof fn lemma_count_split(s: Seq<i64>, i: int, y: i64)
    requires
        0 <= i <= s.len(),
    ensures
        count(s, y) == count(s.take(i), y) + count(s.skip(i), y),
    decreases s.len(),
{
    if i == s.len() {
        assert(s.take(i) =~= s);
        assert(s.skip(i).len() == 0);
    } else {
        assert(s.drop_last().take(i) =~= s.take(i));
        assert(s.skip(i).drop_last() =~= s.drop_last().skip(i));
        assert(s.skip(i).last() == s.last());
        lemma_count_split(s.drop_last(), i, y);
    }
}

proof fn lemma_count_absent(s: Seq<i64>, y: i64)
    requires
        forall|j: int| 0 <= j < s.len() ==> s[j] != y,
    ensures
        count(s, y) == 0,
    decreases s.len(),
{
    if s.len() > 0 {
        lemma_count_absent(s.drop_last(), y);
    }
}

proof fn lemma_count_first(s: Seq<i64>)
    requires
        s.len() > 0,
    ensures
        count(s, s[0]) >= 1,
    decreases s.len(),
{
    if s.len() > 1 {
        assert(s.drop_last()[0] == s[0]);
        lemma_count_first(s.drop_last());
    }
}

/// If both keep the extremes of numbers seen equally often, and agree up to
/// `i`, `b[i]` does not come before `a[i]`.
proof fn lemma_no_earlier(
    a: Seq<i64>,
    b: Seq<i64>,
    seen_a: Seq<i64>,
    seen_b: Seq<i64>,
    limit: nat,
    largest: bool,
    i: int,
)
    requires
        keeps_extremes(a, seen_a, limit, largest),
        keeps_extremes(b, seen_b, limit, largest),
        forall|y: i64| #[trigger] count(seen_a, y) == count(seen_b, y),
        a.len() == b.len(),
        0 <= i < a.len(),
        a.take(i) == b.take(i),
    ensures
        !precedes(a[i], b[i], largest),
{
    if precedes(a[i], b[i], largest) {
        let y = a[i];
        assert(!precedes(b.last(), b[i], largest));
        assert(precedes(y, b.last(), largest));
        assert(count(b, y) == count(seen_b, y));
        assert(count(a, y) <= count(seen_a, y));
        lemma_count_split(b, i, y);
        assert forall|j: int| 0 <= j < b.skip(i).len() implies b.skip(i)[j] != y by {
            assert(b.skip(i)[j] == b[i + j]);
            if j > 0 {
                assert(!precedes(b[i + j], b[i], largest));
            }
        }
        lemma_count_absent(b.skip(i), y);
        lemma_count_split(a, i, y);
        assert(a.skip(i)[0] == y);
        lemma_count_first(a.skip(i));
        assert(false);
    }
}

/// The extremes kept depend only on which numbers were seen and how often,
/// not on the order they came in: two records that saw the same numbers keep
/// the same smallest, and the same largest, numbers.
pub proof fn lemma_extremes_ignore_order(
    a: Seq<i64>,
    b: Seq<i64>,
    seen_a: Seq<i64>,
    seen_b: Seq<i64>,
    limit: nat,
    largest: bool,
)
    requires
        keeps_extremes(a, seen_a, limit, largest),
        keeps_extremes(b, seen_b, limit, largest),
        seen_a.len() == seen_b.len(),
        forall|y: i64| #[trigger] count(seen_a, y) == count(seen_b, y),
    ensures
        a == b,
{
    assert(a.take(0) =~= b.take(0));
    lemma_agree_from(a, b, seen_a, seen_b, limit, largest, 0);
}

proof fn lemma_agree_from(
    a: Seq<i64>,
    b: Seq<i64>,
    seen_a: Seq<i64>,
    seen_b: Seq<i64>,
    limit: nat,
    largest: bool,
    i: int,
)
    requires
        keeps_extremes(a, seen_a, limit, largest),
        keeps_extremes(b, seen_b, limit, largest),
        seen_a.len() == seen_b.len(),
        forall|y: i64| #[trigger] count(seen_a, y) == count(seen_b, y),
        0 <= i <= a.len(),
        a.take(i) == b.take(i),
    ensures
        a == b,
    decreases a.len() - i,
{
    assert(a.len() == b.len());
    if i == a.len() {
        assert(a =~= a.take(i));
        assert(b =~= b.take(i));
    } else {
        lemma_no_earlier(a, b, seen_a, seen_b, limit, largest, i);
        lemma_no_earlier(b, a, seen_b, seen_a, limit, largest, i);
        assert(a[i] == b[i]);
        assert(a.take(i + 1) =~= b.take(i + 1)) by {
            assert forall|j: int| 0 <= j < i + 1 implies #[trigger] a.take(i + 1)[j] == b.take(i + 1)[j] by {
                if j < i {
                    assert(a.take(i)[j] == b.take(i)[j]);
                }
            }
        }
        lemma_agree_from(a, b, seen_a, seen_b, limit, largest, i + 1);
    }
}

/// Two records fed the same numbers, each as often, in any order, report the
/// same smallest and the same largest numbers.
pub proof fn lemma_stats_ignore_order(x: JsonNumbersStats, y: JsonNumbersStats)
    requires
        x.wf(),
        y.wf(),
        x.limit() == y.limit(),
        x.seen().len() == y.seen().len(),
        forall|v: i64| #[trigger] count(x.seen(), v) == count(y.seen(), v),
    ensures
        x.smallest() == y.smallest(),
        x.largest() == y.largest(),
{
    lemma_extremes_ignore_order(x.minimums@, y.minimums@, x.seen(), y.seen(), x.limit(), false);
    lemma_extremes_ignore_order(x.maximums@, y.maximums@, x.seen(), y.seen(), x.limit(), true);
}

} // verus!
