use vstd::prelude::*;
use vstd::arithmetic::div_mod::{lemma_add_mod_noop_right, lemma_mod_add_multiples_vanish, lemma_mod_bound, lemma_mod_equivalence, lemma_small_mod};

verus! {

/// The largest value a counter can hold; sums stop there instead of wrapping.
pub open spec fn saturate(x: int) -> u32 {
    if x > u32::MAX as int { u32::MAX } else if x < 0 { 0 } else { x as u32 }
}

/// `value / volume` rounded half up, or 0 when nothing traded.
pub open spec fn rounded_ratio(value: int, volume: int) -> int {
    if volume <= 0 { 0 } else { (2 * value + volume) / (2 * volume) }
}

/// The volume and value of one day's trades, or of a sum of days.
#[derive(Debug, PartialEq, Eq, Structural, Clone, Copy)]
pub struct Statistics {
    pub volume: u32,
    pub value: u32,
}

/// Total traded volume of a sequence of days, without any bound.
pub open spec fn volume_sum(s: Seq<Statistics>) -> int
    decreases s.len(),
{
    if s.len() == 0 { 0 } else { volume_sum(s.drop_last()) + s.last().volume }
}

/// Total traded value of a sequence of days, without any bound.
pub open spec fn value_sum(s: Seq<Statistics>) -> int
    decreases s.len(),
{
    if s.len() == 0 { 0 } else { value_sum(s.drop_last()) + s.last().value }
}

/// The combined statistics of a sequence of days, each total saturated.
pub open spec fn sum_of(s: Seq<Statistics>) -> Statistics {
    Statistics { volume: saturate(volume_sum(s)), value: saturate(value_sum(s)) }
}

impl Statistics {
    pub fn new(volume: u32, value: u32) -> (r: Statistics)
        ensures
            r.volume == volume,
            r.value == value,
    {
        Statistics { volume, value }
    }

    pub fn volume(&self) -> (r: u32)
        ensures
            r == self.volume,
    {
        self.volume
    }

    pub fn value(&self) -> (r: u32)
        ensures
            r == self.value,
    {
        self.value
    }

    /// Average price per unit, rounded half up; 0 when no unit was traded.
    pub fn price(&self) -> (r: u32)
        ensures
            r as int == rounded_ratio(self.value as int, self.volume as int),
    {
        if self.volume == 0 {
            0
        } else {
            let v = self.value as u64;
            let n = self.volume as u64;
            let r = (2 * v + n) / (2 * n);
            assert(r <= v) by (nonlinear_arith)
                requires r == (2 * v + n) / (2 * n), n >= 1;
            r as u32
        }
    }

    /// Sums volumes and values, each saturating at `u32::MAX`.
    pub fn add(self, rhs: Statistics) -> (r: Statistics)
        ensures
            r.volume == saturate(self.volume + rhs.volume),
            r.value == saturate(self.value + rhs.value),
    {
        Statistics {
            volume: self.volume.saturating_add(rhs.volume),
            value: self.value.saturating_add(rhs.value),
        }
    }
}

impl Default for Statistics {
    fn default() -> (r: Statistics)
        ensures
            r.volume == 0,
            r.value == 0,
    {
        Statistics { volume: 0, value: 0 }
    }
}

/// A ring buffer of the last `N` days; `current_idx` is the slot written last.
#[derive(Debug, PartialEq, Eq)]
pub struct History<const N: usize> {
    pub history: Vec<Statistics>,
    pub current_idx: usize,
}

impl<const N: usize> History<N> {
    pub open spec fn wf(&self) -> bool {
        &&& N > 0
        &&& self.history@.len() == N
        &&& self.current_idx < N
    }

    /// The slots and the cursor after one more day is written.
    pub open spec fn pushed(slots: Seq<Statistics>, idx: int, entry: Statistics) -> (Seq<Statistics>, int) {
        ((slots.update((idx + 1) % (N as int), entry)), (idx + 1) % (N as int))
    }

    /// `N` zero-valued slots, the cursor on the first.
    pub fn new() -> (r: Self)
        requires
            N > 0,
        ensures
            r.wf(),
            r.current_idx == 0,
            forall|i: int| 0 <= i < N ==> r.history@[i] == (Statistics { volume: 0, value: 0 }),
    {
        let mut history: Vec<Statistics> = Vec::new();
        let mut i: usize = 0;
        while i < N
            invariant
                i <= N,
                history@.len() == i,
                forall|j: int| 0 <= j < i ==> history@[j] == (Statistics { volume: 0, value: 0 }),
            decreases N - i,
        {
            history.push(Statistics { volume: 0, value: 0 });
            i = i + 1;
        }
        History { history, current_idx: 0 }
    }

    /// The most recently written day (all zero before any day was written).
    pub fn get_latest(&self) -> (r: Statistics)
        requires
            self.wf(),
        ensures
            r == self.history@[self.current_idx as int],
    {
        self.history[self.current_idx]
    }

    /// The sum of every slot, written or not.
    pub fn get_totals(&self) -> (r: Statistics)
        requires
            self.wf(),
        ensures
            r == sum_of(self.history@),
    {
        let mut acc = Statistics { volume: 0, value: 0 };
        let mut i: usize = 0;
        while i < self.history.len()
            invariant
                i <= self.history@.len(),
                acc == sum_of(self.history@.take(i as int)),
            decreases self.history@.len() - i,
        {
            proof {
                let s = self.history@.take(i as int + 1);
                assert(s.drop_last() == self.history@.take(i as int));
                lemma_sums_nonneg(self.history@.take(i as int));
                assert(s.last() == self.history@[i as int]);
            }
            acc = acc.add(self.history[i]);
            i = i + 1;
        }
        assert(self.history@.take(i as int) == self.history@);
        acc
    }

    /// Advances the cursor circularly and overwrites that slot with `entry`.
    pub fn push(&mut self, entry: Statistics)
        requires
            old(self).wf(),
        ensures
            final(self).wf(),
            (final(self).history@, final(self).current_idx as int)
                == Self::pushed(old(self).history@, old(self).current_idx as int, entry),
    {
        self.current_idx = (self.current_idx + 1) % N;
        self.history.set(self.current_idx, entry);
    }

    /// Writes one day of `volume` trades worth `value` in total.
    pub fn insert(&mut self, volume: u32, value: u32)
        requires
            old(self).wf(),
        ensures
            final(self).wf(),
            (final(self).history@, final(self).current_idx as int)
                == Self::pushed(
                old(self).history@,
                old(self).current_idx as int,
                Statistics { volume, value },
            ),
    {
        let stats = Statistics { volume, value };
        self.push(stats);
    }
}

/// The slots and cursor after writing each day of `s` in turn.
pub open spec fn pushed_all<const N: usize>(slots: Seq<Statistics>, idx: int, s: Seq<Statistics>) -> (Seq<Statistics>, int)
    decreases s.len(),
{
    if s.len() == 0 {
        (slots, idx)
    } else {
        let prev = pushed_all::<N>(slots, idx, s.drop_last());
        History::<N>::pushed(prev.0, prev.1, s.last())
    }
}

proof fn lemma_sum_concat(a: Seq<Statistics>, b: Seq<Statistics>)
    ensures
        volume_sum(a + b) == volume_sum(a) + volume_sum(b),
        value_sum(a + b) == value_sum(a) + value_sum(b),
    decreases b.len(),
{
    if b.len() == 0 {
        assert(a + b == a);
    } else {
        lemma_sum_concat(a, b.drop_last());
        assert((a + b).drop_last() == a + b.drop_last());
        assert((a + b).last() == b.last());
    }
}

proof fn lemma_sum_remove(s: Seq<Statistics>, j: int)
    requires
        0 <= j < s.len(),
    ensures
        volume_sum(s) == volume_sum(s.remove(j)) + s[j].volume,
        value_sum(s) == value_sum(s.remove(j)) + s[j].value,
{
    let a = s.subrange(0, j);
    let b = s.subrange(j + 1, s.len() as int);
    let x = seq![s[j]];
    assert(s == a + x + b);
    assert(s.remove(j) == a + b);
    lemma_sum_concat(a + x, b);
    lemma_sum_concat(a, x);
    lemma_sum_concat(a, b);
    assert(x.drop_last() == Seq::<Statistics>::empty());
    assert(x.last() == s[j]);
    assert(volume_sum(x.drop_last()) == 0);
    assert(value_sum(x.drop_last()) == 0);
    assert(volume_sum(x) == s[j].volume);
    assert(value_sum(x) == s[j].value);
}

/// Combining days does not depend on their order: two sequences holding the
/// same days have the same combined statistics.
pub proof fn lemma_sum_ignores_order(s1: Seq<Statistics>, s2: Seq<Statistics>)
    requires
        s1.to_multiset() == s2.to_multiset(),
    ensures
        sum_of(s1) == sum_of(s2),
        volume_sum(s1) == volume_sum(s2),
        value_sum(s1) == value_sum(s2),
    decreases s1.len(),
{
    s1.to_multiset_ensures();
    s2.to_multiset_ensures();
    if s1.len() == 0 {
        assert(s2.len() == 0);
        assert(s2 == Seq::<Statistics>::empty());
    } else {
        let x = s1.last();
        assert(s1.contains(x));
        assert(s1.to_multiset().count(x) > 0);
        assert(s2.to_multiset().count(x) > 0);
        assert(s2.contains(x));
        let j = choose|j: int| 0 <= j < s2.len() && s2[j] == x;
        let n1 = s1.len() - 1;
        assert(s1.remove(n1) == s1.drop_last());
        assert(s1.drop_last().to_multiset() == s1.to_multiset().remove(x));
        assert(s2.remove(j).to_multiset() == s2.to_multiset().remove(x));
        lemma_sum_ignores_order(s1.drop_last(), s2.remove(j));
        lemma_sum_remove(s2, j);
    }
}

proof fn lemma_pushed_shape<const N: usize>(slots: Seq<Statistics>, idx: int, s: Seq<Statistics>)
    requires
        N > 0,
        slots.len() == N,
        0 <= idx < N,
        s.len() <= N,
    ensures
        pushed_all::<N>(slots, idx, s).0.len() == N,
        pushed_all::<N>(slots, idx, s).1 == (idx + s.len()) % (N as int),
        forall|m: int| 0 <= m < s.len() ==> pushed_all::<N>(slots, idx, s).0[(idx + 1 + m) % (N as int)] == s[m],
    decreases s.len(),
{
    let n = N as int;
    if s.len() == 0 {
        lemma_small_mod(idx as nat, n as nat);
    } else {
        let k = s.len() - 1;
        let prev = pushed_all::<N>(slots, idx, s.drop_last());
        lemma_pushed_shape::<N>(slots, idx, s.drop_last());
        lemma_add_mod_noop_right(1, idx + k, n);
        let w = (idx + s.len()) % n;
        assert((prev.1 + 1) % n == w);
        assert forall|m: int| 0 <= m < s.len() implies pushed_all::<N>(slots, idx, s).0[(idx + 1 + m) % n] == s[m] by {
            if m < k {
                lemma_mod_equivalence(idx + 1 + k, idx + 1 + m, n);
                lemma_small_mod((k - m) as nat, n as nat);
                assert(s.drop_last()[m] == s[m]);
            }
        }
    }
}

/// After `N` days are written into `N` slots, whatever they held before,
/// their sums are those of exactly these `N` days.
proof fn lemma_cycle_from<const N: usize>(slots: Seq<Statistics>, idx: int, s: Seq<Statistics>)
    requires
        N > 0,
        slots.len() == N,
        0 <= idx < N,
        s.len() == N,
    ensures
        sum_of(pushed_all::<N>(slots, idx, s).0) == sum_of(s),
{
    let n = N as int;
    let res = pushed_all::<N>(slots, idx, s).0;
    lemma_pushed_shape::<N>(slots, idx, s);
    let r = (idx + 1) % n;
    if idx + 1 < n {
        lemma_small_mod((idx + 1) as nat, n as nat);
    } else {
        lemma_mod_add_multiples_vanish(0, n);
    }
    let a = s.subrange(n - r, n);
    let b = s.subrange(0, n - r);
    assert forall|j: int| 0 <= j < n implies res[j] == (a + b)[j] by {
        lemma_small_mod(j as nat, n as nat);
        if j < r {
            let m = n - r + j;
            assert(idx + 1 + m == n + j);
            lemma_mod_add_multiples_vanish(j, n);
            assert(res[(idx + 1 + m) % n] == s[m]);
        } else {
            let m = j - r;
            assert(idx + 1 + m == j || idx + 1 + m == n + j);
            lemma_mod_add_multiples_vanish(j, n);
            assert(res[(idx + 1 + m) % n] == s[m]);
        }
    }
    assert(res == a + b);
    assert(s == b + a);
    lemma_sum_concat(a, b);
    lemma_sum_concat(b, a);
}

/// From any state, after a full cycle of `N` days the totals are those of
/// these days, whatever order they were written in.
pub proof fn lemma_cycle_totals_ignore_order<const N: usize>(
    h: History<N>,
    days: Seq<Statistics>,
    reordered: Seq<Statistics>,
)
    requires
        h.wf(),
        days.len() == N,
        reordered.to_multiset() == days.to_multiset(),
    ensures
        sum_of(pushed_all::<N>(h.history@, h.current_idx as int, days).0) == sum_of(days),
        sum_of(pushed_all::<N>(h.history@, h.current_idx as int, reordered).0) == sum_of(days),
{
    reordered.to_multiset_ensures();
    days.to_multiset_ensures();
    lemma_cycle_from::<N>(h.history@, h.current_idx as int, days);
    lemma_cycle_from::<N>(h.history@, h.current_idx as int, reordered);
    lemma_sum_ignores_order(reordered, days);
}

/// Writing `N` days and then `N` more leaves totals of the second `N` only;
/// reordering the days of a full cycle does not change the totals.
pub proof fn lemma_second_cycle_totals<const N: usize>(
    h: History<N>,
    first: Seq<Statistics>,
    second: Seq<Statistics>,
    reordered: Seq<Statistics>,
)
    requires
        h.wf(),
        first.len() == N,
        second.len() == N,
        reordered.to_multiset() == second.to_multiset(),
    ensures
        ({
            let mid = pushed_all::<N>(h.history@, h.current_idx as int, first);
            &&& sum_of(pushed_all::<N>(mid.0, mid.1, second).0) == sum_of(second)
            &&& sum_of(pushed_all::<N>(mid.0, mid.1, reordered).0) == sum_of(second)
        }),
{
    let mid = pushed_all::<N>(h.history@, h.current_idx as int, first);
    lemma_pushed_shape::<N>(h.history@, h.current_idx as int, first);
    lemma_mod_bound(h.current_idx as int + N as int, N as int);
    reordered.to_multiset_ensures();
    second.to_multiset_ensures();
    lemma_cycle_from::<N>(mid.0, mid.1, second);
    lemma_cycle_from::<N>(mid.0, mid.1, reordered);
    lemma_sum_ignores_order(reordered, second);
}

pub proof fn lemma_sums_nonneg(s: Seq<Statistics>)
    ensures
        volume_sum(s) >= 0,
        value_sum(s) >= 0,
    decreases s.len(),
{
    if s.len() > 0 {
        lemma_sums_nonneg(s.drop_last());
    }
}

} // verus!
