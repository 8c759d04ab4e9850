use vstd::arithmetic::div_mod::{
    lemma_add_mod_noop,
    lemma_fundamental_div_mod,
    lemma_mod_add_multiples_vanish,
    lemma_mod_twice,
    lemma_small_mod,
};
use vstd::prelude::*;

verus! {

/// A monotone priority queue over `usize` keys.
///
/// The queue keeps one counter per residue modulo `max_increment + 1`. Every key
/// held lies in the active window `[last_min, last_min + max_increment]`, whose
/// keys all have distinct residues, so the counter of a residue is the number of
/// occurrences of the one window key with that residue.
pub struct BucketQueue {
    buckets: Vec<usize>,
    max_increment: usize,
    last_min: usize,
}

/// Distinct keys of one window of `c + 1` consecutive integers have distinct
/// residues modulo `c + 1`.
proof fn lemma_residues_distinct(lo: int, c: int, a: int, b: int)
    requires
        0 <= c,
        lo <= a <= lo + c,
        lo <= b <= lo + c,
        a % (c + 1) == b % (c + 1),
    ensures
        a == b,
{
    let m = c + 1;
    lemma_fundamental_div_mod(a, m);
    lemma_fundamental_div_mod(b, m);
    let d = a / m - b / m;
    assert(a - b == m * d) by (nonlinear_arith)
        requires
            a == m * (a / m) + a % m,
            b == m * (b / m) + b % m,
            a % m == b % m,
            d == a / m - b / m,
    ;
    if d > 0 {
        assert(m * d >= m) by (nonlinear_arith)
            requires
                d >= 1,
                m > 0,
        ;
    } else if d < 0 {
        assert(m * d <= -m) by (nonlinear_arith)
            requires
                d <= -1,
                m > 0,
        ;
    }
}

impl BucketQueue {
    /// The most recently extracted minimum (zero before the first extraction).
    pub closed spec fn last_min(&self) -> int {
        self.last_min as int
    }

    /// The bound on increments fixed at construction.
    pub closed spec fn max_increment(&self) -> int {
        self.max_increment as int
    }

    /// The counter of the bucket that key `v` maps to.
    closed spec fn slot(&self, v: int) -> int {
        self.buckets@[v % (self.max_increment as int + 1)] as int
    }

    /// The bucket counters, one per residue modulo `max_increment + 1`.
    pub closed spec fn bucket_counts(&self) -> Seq<usize> {
        self.buckets@
    }

    /// Whether `v` lies in the active window `[last_min, last_min + max_increment]`.
    pub open spec fn in_window_spec(&self, v: int) -> bool {
        self.last_min() <= v <= self.last_min() + self.max_increment()
    }

    /// How many occurrences of key `v` the queue holds.
    pub closed spec fn count(&self, v: int) -> nat {
        if self.in_window_spec(v) {
            self.slot(v) as nat
        } else {
            0
        }
    }

    /// Well-formedness: one bucket per residue, and no key beyond `usize::MAX`
    /// is counted by a bucket.
    pub closed spec fn wf(&self) -> bool {
        &&& self.max_increment < usize::MAX
        &&& self.buckets@.len() == self.max_increment as int + 1
        &&& forall|v: int|
            usize::MAX < v <= self.last_min() + self.max_increment() ==> #[trigger] self.slot(v)
                == 0
    }

    /// The queue holds nothing.
    pub open spec fn is_empty(&self) -> bool {
        forall|v: int| #[trigger] self.count(v) == 0
    }

    /// `m` is the least key held.
    pub open spec fn has_min(&self, m: int) -> bool {
        &&& self.count(m) > 0
        &&& forall|v: int| v < m ==> #[trigger] self.count(v) == 0
    }

    /// `r` is what a minimum query on this queue answers: the least key held, or
    /// `None` when the queue is empty.
    pub open spec fn min_result(&self, r: Option<usize>) -> bool {
        match r {
            Some(m) => self.has_min(m as int),
            None => self.is_empty(),
        }
    }

    /// Create an empty queue whose keys may exceed the last extracted minimum by
    /// at most `max_increment`.
    pub fn new(max_increment: usize) -> (r: Self)
        requires
            max_increment < usize::MAX,
        ensures
            r.wf(),
            r.last_min() == 0,
            r.max_increment() == max_increment,
            r.is_empty(),
    {
        let r = BucketQueue { buckets: vec![0; max_increment + 1], max_increment, last_min: 0 };
        assert(forall|i: int| 0 <= i < r.buckets@.len() ==> r.buckets@[i] == 0);
        proof {
            assert forall|v: int| #[trigger] r.count(v) == 0 by {
                if r.last_min() <= v <= r.last_min() + r.max_increment() {
                    assert(0 <= v % (max_increment as int + 1) < max_increment as int + 1);
                }
            }
            assert forall|v: int|
                usize::MAX < v <= r.last_min() + r.max_increment() implies #[trigger] r.slot(v)
                == 0 by {}
        }
        r
    }

    /// `next` has the window of `self` and holds the same keys but for `v`.
    pub open spec fn agrees_except(&self, next: &Self, v: int) -> bool {
        &&& next.wf()
        &&& next.last_min() == self.last_min()
        &&& next.max_increment() == self.max_increment()
        &&& forall|w: int| w != v ==> #[trigger] next.count(w) == self.count(w)
    }

    /// `next` is `self` with one more occurrence of `value`.
    pub open spec fn inserted(&self, next: &Self, value: int) -> bool {
        &&& self.agrees_except(next, value)
        &&& next.count(value) == self.count(value) + 1
    }

    /// `next` is `self` with one occurrence of `value` taken out if there was
    /// one, and `r` says whether there was.
    pub open spec fn removed(&self, next: &Self, value: int, r: Option<usize>) -> bool {
        &&& self.agrees_except(next, value)
        &&& if self.count(value) > 0 {
            &&& r == Some(value as usize)
            &&& next.count(value) == self.count(value) - 1
        } else {
            &&& r.is_none()
            &&& next.count(value) == self.count(value)
        }
    }

    /// `next` is `self` with one occurrence of `value` moved to `new_key` if
    /// there was one, and unchanged otherwise.
    pub open spec fn key_moved(&self, next: &Self, value: int, new_key: int) -> bool {
        &&& next.wf()
        &&& next.last_min() == self.last_min()
        &&& next.max_increment() == self.max_increment()
        &&& forall|w: int|
            #[trigger] next.count(w) == self.count(w) - (if self.count(value) > 0 && w == value {
                1int
            } else {
                0int
            }) + (if self.count(value) > 0 && w == new_key {
                1int
            } else {
                0int
            })
    }

    /// The bucket of `value` was overwritten with `x`: only the count of
    /// `value` changes.
    proof fn lemma_set_bucket(&self, next: &Self, value: int, x: usize)
        requires
            self.wf(),
            self.in_window_spec(value),
            value <= usize::MAX,
            next.last_min == self.last_min,
            next.max_increment == self.max_increment,
            next.buckets@ == self.buckets@.update(value % (self.max_increment as int + 1), x),
        ensures
            self.agrees_except(next, value),
            next.count(value) == x,
    {
        let c = self.max_increment as int;
        let lo = self.last_min as int;
        assert forall|w: int| w != value implies #[trigger] next.count(w) == self.count(w) by {
            if lo <= w <= lo + c {
                if w % (c + 1) == value % (c + 1) {
                    lemma_residues_distinct(lo, c, w, value);
                }
            }
        }
        assert forall|v: int| usize::MAX < v <= next.last_min() + next.max_increment() implies #[trigger] next.slot(v) == 0 by {
            if v % (c + 1) == value % (c + 1) {
                lemma_residues_distinct(lo, c, v, value);
            }
            assert(self.slot(v) == 0);
        }
    }

    /// Whether `value` lies in the active window, that is, whether `insert`,
    /// `remove` and `decrease_key` accept it.
    pub fn in_window(&self, value: usize) -> (r: bool)
        requires
            self.wf(),
        ensures
            r == self.in_window_spec(value as int),
    {
        self.last_min <= value && value - self.last_min <= self.max_increment
    }

    /// Add one occurrence of `value`, which must lie in the active window.
    pub fn insert(&mut self, value: usize)
        requires
            old(self).wf(),
            old(self).in_window_spec(value as int),
            old(self).count(value as int) < usize::MAX,
        ensures
            old(self).inserted(final(self), value as int),
    {
        let index = value % (self.max_increment + 1);
        let n = self.buckets[index];
        proof {
            assert(self.slot(value as int) == n);
        }
        let ghost before = *self;
        self.buckets.set(index, n + 1);
        proof {
            before.lemma_set_bucket(self, value as int, (n + 1) as usize);
        }
    }

    /// Remove one occurrence of `value`, which must lie in the active window.
    /// Returns `Some(value)` if there was one and `None` (changing nothing)
    /// otherwise.
    pub fn remove(&mut self, value: usize) -> (r: Option<usize>)
        requires
            old(self).wf(),
            old(self).in_window_spec(value as int),
        ensures
            old(self).removed(final(self), value as int, r),
    {
        let index = value % (self.max_increment + 1);
        let n = self.buckets[index];
        proof {
            assert(self.slot(value as int) == n);
        }
        if n > 0 {
            let ghost before = *self;
            self.buckets.set(index, n - 1);
            proof {
                before.lemma_set_bucket(self, value as int, (n - 1) as usize);
            }
            Some(value)
        } else {
            None
        }
    }

    /// Move one occurrence of `value` to the key `new_key`, if there is one;
    /// otherwise change nothing. Both keys must lie in the active window and
    /// `new_key` must not exceed `value`.
    pub fn decrease_key(&mut self, value: usize, new_key: usize)
        requires
            old(self).wf(),
            old(self).in_window_spec(value as int),
            old(self).in_window_spec(new_key as int),
            new_key <= value,
            old(self).count(value as int) > 0 && new_key != value ==> old(self).count(
                new_key as int,
            ) < usize::MAX,
        ensures
            old(self).key_moved(final(self), value as int, new_key as int),
    {
        let ghost start = *self;
        let old_index = value % (self.max_increment + 1);
        let n = self.buckets[old_index];
        proof {
            assert(self.slot(value as int) == n);
        }
        if n > 0 {
            self.buckets.set(old_index, n - 1);
            proof {
                start.lemma_set_bucket(self, value as int, (n - 1) as usize);
            }
            let ghost mid = *self;
            let new_index = new_key % (self.max_increment + 1);
            let k = self.buckets[new_index];
            proof {
                assert(self.slot(new_key as int) == k);
            }
            self.buckets.set(new_index, k + 1);
            proof {
                mid.lemma_set_bucket(self, new_key as int, (k + 1) as usize);
                assert forall|w: int|
                    #[trigger] self.count(w) == start.count(w) - (if w == value {
                        1int
                    } else {
                        0int
                    }) + (if w == new_key {
                        1int
                    } else {
                        0int
                    }) by {
                    assert(mid.count(w) == start.count(w) - (if w == value {
                        1int
                    } else {
                        0int
                    }));
                }
            }
        }
    }
    /// `next` is `self` after a pop: `r` is the least key of `self`, or `None`
    /// when it was empty; one occurrence of it is taken out and the window
    /// moves to start at it.
    pub open spec fn popped(&self, next: &Self, r: Option<usize>) -> bool {
        &&& self.min_result(r)
        &&& match r {
            Some(m) => {
                &&& next.wf()
                &&& next.last_min() == m
                &&& next.max_increment() == self.max_increment()
                &&& next.count(m as int) == self.count(m as int) - 1
                &&& forall|w: int| w != m ==> #[trigger] next.count(w) == self.count(w)
            },
            None => next == self,
        }
    }

    /// The least key held, or `None` when the queue is empty. Scans the active
    /// window upwards and changes nothing.
    pub fn get_min(&self) -> (r: Option<usize>)
        requires
            self.wf(),
        ensures
            self.min_result(r),
    {
        let modulus = self.max_increment + 1;
        let mut k: usize = 0;
        while k <= self.max_increment
            invariant
                self.wf(),
                modulus == self.max_increment + 1,
                k <= self.max_increment + 1,
                forall|v: int| v < self.last_min() + k ==> #[trigger] self.count(v) == 0,
            decreases self.max_increment + 1 - k,
        {
            if k > usize::MAX - self.last_min {
                proof {
                    assert forall|v: int| #[trigger] self.count(v) == 0 by {
                        if self.in_window_spec(v) && v >= self.last_min() + k {
                            assert(self.slot(v) == 0);
                        }
                    }
                }
                return None;
            }
            let v = self.last_min + k;
            if self.buckets[v % modulus] > 0 {
                proof {
                    assert(self.count(v as int) > 0);
                }
                return Some(v);
            }
            proof {
                assert(self.count(v as int) == 0);
            }
            k += 1;
        }
        proof {
            assert forall|v: int| #[trigger] self.count(v) == 0 by {
                if v >= self.last_min() + k {
                    assert(!self.in_window_spec(v));
                }
            }
        }
        None
    }

    /// Take out one occurrence of the least key and return it, or return
    /// `None` when the queue is empty. The active window then starts at the
    /// returned key: later keys must not be smaller.
    pub fn pop_min(&mut self) -> (r: Option<usize>)
        requires
            old(self).wf(),
        ensures
            old(self).popped(final(self), r),
    {
        let ghost before = *self;
        match self.get_min() {
            Some(m) => {
                let index = m % (self.max_increment + 1);
                let n = self.buckets[index];
                proof {
                    assert(self.slot(m as int) == n);
                }
                self.last_min = m;
                self.buckets.set(index, n - 1);
                proof {
                    before.lemma_advance(self, m as int);
                }
                Some(m)
            },
            None => None,
        }
    }

    /// Moving the window up to the least key `m` and taking out one occurrence
    /// of it changes no other count.
    proof fn lemma_advance(&self, next: &Self, m: int)
        requires
            self.wf(),
            self.has_min(m),
            m <= usize::MAX,
            next.last_min == m,
            next.max_increment == self.max_increment,
            next.buckets@ == self.buckets@.update(
                m % (self.max_increment as int + 1),
                (self.slot(m) - 1) as usize,
            ),
        ensures
            next.wf(),
            next.count(m) == self.count(m) - 1,
            forall|w: int| w != m ==> #[trigger] next.count(w) == self.count(w),
    {
        let c = self.max_increment as int;
        let lo = self.last_min as int;
        let md = c + 1;
        assert(lo <= m <= lo + c);
        // A key `w` of the new window has the bucket of `m` only when `w == m`;
        // above the old window its bucket held the key `w - md`, below `m`.
        assert forall|w: int| w != m && m <= w <= m + c implies next.slot(w) == self.slot(w)
            && (w > lo + c ==> self.slot(w) == 0) by {
            if w % md == m % md {
                lemma_residues_distinct(m, c, w, m);
            }
            if w > lo + c {
                lemma_mod_add_multiples_vanish(w - md, md);
                assert(self.count(w - md) == 0);
                assert(self.slot(w - md) == self.slot(w));
            }
        }
        assert forall|w: int| w != m implies #[trigger] next.count(w) == self.count(w) by {
            if m <= w <= m + c {
                assert(next.slot(w) == self.slot(w));
            }
        }
        assert forall|v: int| usize::MAX < v <= next.last_min() + next.max_increment() implies #[trigger] next.slot(v) == 0 by {
            assert(next.slot(v) == self.slot(v));
            if v <= lo + c {
                assert(self.slot(v) == 0);
            }
        }
    }
}

/// Every key held lies in the active window `[last_min, last_min + max_increment]`
/// and fits in a `usize`; a pop moves the window only forward and keeps the
/// queue well formed.
pub proof fn lemma_keys_in_window(q: &BucketQueue, v: int, next: &BucketQueue, r: Option<usize>)
    requires
        q.wf(),
        q.popped(next, r),
    ensures
        q.count(v) > 0 ==> q.in_window_spec(v) && v <= usize::MAX,
        next.wf(),
        next.last_min() >= q.last_min(),
        next.max_increment() == q.max_increment(),
{
    if q.count(v) > 0 {
        if v > usize::MAX {
            assert(q.slot(v) == 0);
        }
    }
    if let Some(m) = r {
        assert(q.count(m as int) > 0);
    }
}

/// A key that is held bounds the minimum from above: the queue is not empty,
/// and its least key is at most that key.
pub proof fn lemma_held_key_bounds_min(q: &BucketQueue, v: int)
    requires
        q.wf(),
        q.count(v) > 0,
    ensures
        !q.is_empty(),
        forall|m: int| q.has_min(m) ==> m <= v,
{
    assert(q.count(v) != 0);
}

/// Equal keys leave one at a time: popping one of several occurrences of the
/// least key leaves that key the least one, with one occurrence fewer.
pub proof fn lemma_equal_keys_pop_in_turn(q: &BucketQueue, next: &BucketQueue, v: usize)
    requires
        q.wf(),
        q.popped(next, Some(v)),
        q.count(v as int) > 1,
    ensures
        next.has_min(v as int),
        next.count(v as int) == q.count(v as int) - 1,
{
    assert forall|w: int| w < v implies #[trigger] next.count(w) == 0 by {
        assert(q.count(w) == 0);
    }
}

/// Inserting a key and then removing it gives back the same queue: the same
/// window, the same counts and the same bucket counters.
pub proof fn lemma_insert_remove_round_trip(
    a: &BucketQueue,
    b: &BucketQueue,
    c: &BucketQueue,
    v: int,
    r: Option<usize>,
)
    requires
        a.wf(),
        a.in_window_spec(v),
        a.inserted(b, v),
        b.removed(c, v, r),
    ensures
        r == Some(v as usize),
        c.last_min() == a.last_min(),
        c.max_increment() == a.max_increment(),
        forall|w: int| #[trigger] c.count(w) == a.count(w),
        c.bucket_counts() == a.bucket_counts(),
{
    assert forall|w: int| #[trigger] c.count(w) == a.count(w) by {
        if w != v {
            assert(b.count(w) == a.count(w));
        }
    }
    lemma_counts_determine_buckets(a, c);
}

/// Two well-formed queues with the same window and the same counts have the
/// same bucket counters.
pub proof fn lemma_counts_determine_buckets(a: &BucketQueue, c: &BucketQueue)
    requires
        a.wf(),
        c.wf(),
        c.last_min() == a.last_min(),
        c.max_increment() == a.max_increment(),
        forall|w: int| #[trigger] c.count(w) == a.count(w),
    ensures
        c.bucket_counts() == a.bucket_counts(),
{
    let lo = a.last_min();
    let md = a.max_increment() + 1;
    assert forall|i: int| 0 <= i < md implies c.buckets@[i] == a.buckets@[i] by {
        let v = lo + (i - lo) % md;
        lemma_mod_twice(i - lo, md);
        lemma_add_mod_noop(lo, (i - lo) % md, md);
        lemma_add_mod_noop(lo, i - lo, md);
        lemma_small_mod(i as nat, md as nat);
        assert(v % md == i);
        assert(a.count(v) == a.slot(v));
        assert(c.count(v) == c.slot(v));
    }
    assert(c.buckets@ =~= a.buckets@);
}

/// The answer to a minimum query is determined by the queue: asking twice
/// without a change in between gives the same answer.
pub proof fn lemma_min_result_unique(q: &BucketQueue, r1: Option<usize>, r2: Option<usize>)
    requires
        q.min_result(r1),
        q.min_result(r2),
    ensures
        r1 == r2,
{
    match (r1, r2) {
        (Some(m1), Some(m2)) => {
            assert(q.count(m1 as int) > 0 && q.count(m2 as int) > 0);
            if m1 < m2 {
                assert(q.count(m1 as int) == 0);
            } else if m2 < m1 {
                assert(q.count(m2 as int) == 0);
            }
        },
        (Some(m1), None) => {
            assert(q.count(m1 as int) == 0);
        },
        (None, Some(m2)) => {
            assert(q.count(m2 as int) == 0);
        },
        (None, None) => {},
    }
}

} // verus!
