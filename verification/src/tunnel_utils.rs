//! Low level utilities for examining tunnels: the sliding window of the most
//! recent steps, ordered by value for fast pair-sum queries and tagged with
//! ages for correct eviction of the oldest occurrence.

use vstd::prelude::*;

verus! {

/// One live occurrence in the window: a step value together with its age.
/// Age `0` is the oldest occurrence (the next to be evicted) and age
/// `window length - 1` is the most recently admitted one.
struct Occ {
    step: u128,
    age: usize,
}

/// Two distinct occurrences of `w` (distinct positions, possibly equal
/// values) sum to `c`.
pub open spec fn has_pair(w: Seq<u128>, c: u128) -> bool {
    exists|i: int, j: int|
        0 <= i < w.len() && 0 <= j < w.len() && i != j && w[i] + w[j] == c
}

/// What the ordered pair search reports for candidate `c` over window `w`.
///
/// The search walks values in ascending order and stops as soon as the
/// smallest remaining value is at least `c`; since the smallest value is
/// always at least `0`, a candidate of `0` is never reported as covered,
/// even when two occurrences of `0` are live.  For every other candidate the
/// answer is exactly "two distinct occurrences sum to `c`".
pub open spec fn spec_safe(w: Seq<u128>, c: u128) -> bool {
    c != 0 && has_pair(w, c)
}

/// Some occurrence of `occs` carries age `a`.
spec fn age_present(occs: Seq<Occ>, a: int) -> bool {
    exists|i: int| 0 <= i < occs.len() && (#[trigger] occs[i]).age == a
}

/// The occurrence list is a window over the first `k` ages of `m`: it holds
/// exactly `k` occurrences, sorted by step value, whose ages are a
/// permutation of `0..k` and map through `m` to the occurrence's own value.
spec fn occs_ok(occs: Seq<Occ>, m: Seq<u128>, k: int) -> bool {
    &&& occs.len() == k
    &&& k <= m.len()
    &&& forall|i: int|
        0 <= i < k ==> (#[trigger] occs[i]).age < k && m[occs[i].age as int] == occs[i].step
    &&& forall|i: int, j: int|
        0 <= i < j < k ==> (#[trigger] occs[i]).step <= (#[trigger] occs[j]).step
    &&& forall|i: int, j: int|
        0 <= i < j < k ==> (#[trigger] occs[i]).age != (#[trigger] occs[j]).age
    &&& forall|a: int| 0 <= a < k ==> #[trigger] age_present(occs, a)
}

/// Two occurrences at distinct positions of the sorted list sum to `c`.
spec fn occ_pair(occs: Seq<Occ>, c: u128) -> bool {
    exists|p: int, q: int|
        0 <= p < occs.len() && 0 <= q < occs.len() && p != q && occs[p].step + occs[q].step == c
}

/// A pair of distinct ages summing to `c` in the age-ordered view exists
/// exactly when a pair of distinct positions summing to `c` exists in the
/// sorted occurrence list: the ages are a permutation of the positions.
proof fn lemma_pair_by_positions(occs: Seq<Occ>, m: Seq<u128>, c: u128)
    requires
        occs_ok(occs, m, m.len() as int),
    ensures
        has_pair(m, c) <==> occ_pair(occs, c),
{
    let k = m.len() as int;
    if has_pair(m, c) {
        let (a1, a2) = choose|a1: int, a2: int|
            0 <= a1 < m.len() && 0 <= a2 < m.len() && a1 != a2 && m[a1] + m[a2] == c;
        assert(age_present(occs, a1));
        assert(age_present(occs, a2));
        let p = choose|p: int| 0 <= p < occs.len() && (#[trigger] occs[p]).age == a1;
        let q = choose|q: int| 0 <= q < occs.len() && (#[trigger] occs[q]).age == a2;
        assert(occs[p].step + occs[q].step == c);
        assert(occ_pair(occs, c));
    }
    if occ_pair(occs, c) {
        let (p, q) = choose|p: int, q: int|
            0 <= p < occs.len() && 0 <= q < occs.len() && p != q && occs[p].step + occs[q].step
                == c;
        let a1 = occs[p].age as int;
        let a2 = occs[q].age as int;
        assert(a1 != a2);
        assert(m[a1] + m[a2] == c);
        assert(has_pair(m, c));
    }
}

/// Holds the preceding fragment of the tunnel: the fixed-size window of the
/// most recent steps.
///
/// Occurrences are kept sorted by step value so the pair-sum query can prune
/// with early exits, and each occurrence carries an age so eviction targets
/// the oldest occurrence even when equal values are live.  The ghost
/// `steps_by_age` sequence is the window read in age order, oldest first; it
/// is the view against which all contracts are stated.
pub struct SortedTunnel {
    occs: Vec<Occ>,
    tunnel_length: usize,
    steps_by_age: Ghost<Seq<u128>>,
}

impl View for SortedTunnel {
    type V = Seq<u128>;

    closed spec fn view(&self) -> Seq<u128> {
        self.steps_by_age@
    }
}

impl SortedTunnel {
    /// Well-formedness: the window holds at least one step, and its sorted
    /// occurrence list carries ages that form a permutation of
    /// `0..window length`, each mapping to the step the view holds at that
    /// age.
    pub closed spec fn wf(&self) -> bool {
        &&& self@.len() >= 1
        &&& self.tunnel_length + 1 == self@.len()
        &&& occs_ok(self.occs@, self.steps_by_age@, self@.len() as int)
    }

    /// Builds a window from the seed steps, assigning ages in input order:
    /// the first seed step is the oldest.
    #[verifier::loop_isolation(false)]
    pub fn new(tunnel: Vec<u128>) -> (result: SortedTunnel)
        requires
            tunnel.len() >= 1,
        ensures
            result.wf(),
            result@ == tunnel@,
    {
        let mut sorted_tunnel = SortedTunnel {
            occs: Vec::new(),
            tunnel_length: tunnel.len() - 1,
            steps_by_age: Ghost(tunnel@),
        };
        let mut age: usize = 0;
        while age < tunnel.len()
            invariant
                age <= tunnel.len(),
                tunnel.len() >= 1,
                sorted_tunnel.steps_by_age@ == tunnel@,
                sorted_tunnel.tunnel_length + 1 == tunnel.len(),
                sorted_tunnel.occs@.len() == age,
                occs_ok(sorted_tunnel.occs@, tunnel@, age as int),
            decreases tunnel.len() - age,
        {
            sorted_tunnel.add_duplicate(tunnel[age], age);
            age = age + 1;
        }
        sorted_tunnel
    }

    /// Admits one occurrence of `step` with the next free age, keeping the
    /// occurrence list sorted; equal values are stored as separate tracked
    /// occurrences.
    #[verifier::loop_isolation(false)]
    fn add_duplicate(&mut self, step: u128, age: usize)
        requires
            occs_ok(old(self).occs@, old(self).steps_by_age@, old(self).occs@.len() as int),
            age == old(self).occs@.len(),
            age < old(self).steps_by_age@.len(),
            old(self).steps_by_age@[age as int] == step,
        ensures
            final(self).occs@.len() == old(self).occs@.len() + 1,
            occs_ok(final(self).occs@, final(self).steps_by_age@, old(self).occs@.len() + 1 as int),
            final(self).steps_by_age == old(self).steps_by_age,
            final(self).tunnel_length == old(self).tunnel_length,
    {
        let ghost oo = self.occs@;
        let ghost k = oo.len() as int;
        let mut p: usize = 0;
        while p < self.occs.len() && self.occs[p].step <= step
            invariant
                p <= self.occs.len(),
                forall|q: int| 0 <= q < p ==> (#[trigger] self.occs@[q]).step <= step,
            decreases self.occs.len() - p,
        {
            p = p + 1;
        }
        self.occs.insert(p, Occ { step, age });
        proof {
            let no = self.occs@;
            assert(no.len() == k + 1);
            assert forall|i: int| 0 <= i < k + 1 implies (#[trigger] no[i]).age < k + 1
                && self.steps_by_age@[no[i].age as int] == no[i].step by {
                if i < p {
                    assert(no[i] == oo[i]);
                } else if i > p {
                    assert(no[i] == oo[i - 1]);
                }
            }
            assert forall|i: int, j: int| 0 <= i < j < k + 1 implies (#[trigger] no[i]).step
                <= (#[trigger] no[j]).step by {
                if i < p {
                    assert(no[i] == oo[i]);
                } else if i > p {
                    assert(no[i] == oo[i - 1]);
                }
                if j < p {
                    assert(no[j] == oo[j]);
                } else if j > p {
                    assert(no[j] == oo[j - 1]);
                }
            }
            assert forall|i: int, j: int| 0 <= i < j < k + 1 implies (#[trigger] no[i]).age
                != (#[trigger] no[j]).age by {
                if i < p {
                    assert(no[i] == oo[i]);
                } else if i > p {
                    assert(no[i] == oo[i - 1]);
                }
                if j < p {
                    assert(no[j] == oo[j]);
                } else if j > p {
                    assert(no[j] == oo[j - 1]);
                }
            }
            assert forall|a: int| 0 <= a < k + 1 implies #[trigger] age_present(no, a) by {
                if a == k {
                    assert(no[p as int].age == a);
                } else {
                    assert(age_present(oo, a));
                    let i = choose|i: int| 0 <= i < oo.len() && (#[trigger] oo[i]).age == a;
                    if i < p {
                        assert(no[i] == oo[i]);
                        assert(no[i].age == a);
                    } else {
                        assert(no[i + 1] == oo[i]);
                        assert(no[i + 1].age == a);
                    }
                }
            }
        }
    }

    /// Removes the occurrence whose age is `0` (the oldest) and makes every
    /// remaining occurrence one step older.  Removal targets the occurrence
    /// by age identity, never by value alone, so the right occurrence leaves
    /// even when duplicate values are live.  The age permutation invariant
    /// guarantees that an age-`0` occurrence always exists, so the search
    /// cannot come up empty.
    #[verifier::loop_isolation(false)]
    fn remove_oldest_step(&mut self)
        requires
            old(self).wf(),
        ensures
            final(self).steps_by_age@ == old(self).steps_by_age@.subrange(
                1,
                old(self).steps_by_age@.len() as int,
            ),
            occs_ok(
                final(self).occs@,
                final(self).steps_by_age@,
                old(self)@.len() - 1 as int,
            ),
            final(self).tunnel_length == old(self).tunnel_length,
    {
        let ghost n = self@.len() as int;
        let mut idx: usize = 0;
        while idx < self.occs.len() && self.occs[idx].age != 0
            invariant
                idx <= self.occs.len(),
                forall|q: int| 0 <= q < idx ==> (#[trigger] self.occs@[q]).age != 0,
            decreases self.occs.len() - idx,
        {
            idx = idx + 1;
        }
        proof {
            if idx == self.occs.len() {
                assert(age_present(self.occs@, 0));
                let w = choose|i: int|
                    0 <= i < self.occs@.len() && (#[trigger] self.occs@[i]).age == 0;
                assert(false);
            }
        }
        let ghost oo = self.occs@;
        self.occs.remove(idx);
        let ghost mid = self.occs@;
        proof {
            assert forall|q: int| 0 <= q < n - 1 implies (#[trigger] mid[q]).age >= 1 by {
                if q < idx {
                    assert(mid[q] == oo[q]);
                } else {
                    assert(mid[q] == oo[q + 1]);
                }
            }
            assert forall|q: int, r: int| 0 <= q < r < n - 1 implies (#[trigger] mid[q]).step
                <= (#[trigger] mid[r]).step && (#[trigger] mid[q]).age
                != (#[trigger] mid[r]).age by {
                if q < idx {
                    assert(mid[q] == oo[q]);
                } else {
                    assert(mid[q] == oo[q + 1]);
                }
                if r < idx {
                    assert(mid[r] == oo[r]);
                } else {
                    assert(mid[r] == oo[r + 1]);
                }
            }
            assert forall|q: int| 0 <= q < n - 1 implies (#[trigger] mid[q]).age < n
                && old(self).steps_by_age@[mid[q].age as int] == mid[q].step by {
                if q < idx {
                    assert(mid[q] == oo[q]);
                } else {
                    assert(mid[q] == oo[q + 1]);
                }
            }
        }
        let mut j: usize = 0;
        while j < self.occs.len()
            invariant
                j <= self.occs.len(),
                self.occs@.len() == mid.len(),
                self.steps_by_age == old(self).steps_by_age,
                self.tunnel_length == old(self).tunnel_length,
                forall|q: int| 0 <= q < n - 1 ==> (#[trigger] mid[q]).age >= 1,
                forall|q: int|
                    0 <= q < j ==> (#[trigger] self.occs@[q]).step == mid[q].step
                        && self.occs@[q].age == mid[q].age - 1,
                forall|q: int| j <= q < mid.len() ==> #[trigger] self.occs@[q] == mid[q],
            decreases self.occs.len() - j,
        {
            let s = self.occs[j].step;
            let a = self.occs[j].age;
            self.occs.set(j, Occ { step: s, age: a - 1 });
            j = j + 1;
        }
        self.steps_by_age = Ghost(
            self.steps_by_age@.subrange(1, self.steps_by_age@.len() as int),
        );
        proof {
            let no = self.occs@;
            let m = self.steps_by_age@;
            assert forall|i: int| 0 <= i < n - 1 implies (#[trigger] no[i]).age < n - 1
                && m[no[i].age as int] == no[i].step by {
                assert(mid[i].age < n);
                assert(old(self).steps_by_age@[mid[i].age as int] == mid[i].step);
            }
            assert forall|i: int, j2: int| 0 <= i < j2 < n - 1 implies (#[trigger] no[i]).step
                <= (#[trigger] no[j2]).step && (#[trigger] no[i]).age
                != (#[trigger] no[j2]).age by {
                assert(mid[i].age != mid[j2].age);
            }
            assert forall|a: int| 0 <= a < n - 1 implies #[trigger] age_present(no, a) by {
                assert(age_present(oo, a + 1));
                let w = choose|i: int|
                    0 <= i < oo.len() && (#[trigger] oo[i]).age == a + 1;
                if w < idx {
                    assert(mid[w] == oo[w]);
                    assert(no[w].age == a);
                } else {
                    assert(w != idx);
                    assert(mid[w - 1] == oo[w]);
                    assert(no[w - 1].age == a);
                }
            }
        }
    }

    /// Replaces the oldest step of the preceding tunnel fragment with a new
    /// step: the window view drops its oldest entry and gains `new_step` as
    /// its newest.
    pub fn shift_right(&mut self, new_step: u128)
        requires
            old(self).wf(),
        ensures
            final(self).wf(),
            final(self)@.len() == old(self)@.len(),
            final(self)@ == old(self)@.subrange(1, old(self)@.len() as int).push(new_step),
    {
        let ghost n = self@.len() as int;
        self.remove_oldest_step();
        self.steps_by_age = Ghost(self.steps_by_age@.push(new_step));
        proof {
            let m = self.steps_by_age@;
            assert forall|i: int| 0 <= i < n - 1 implies (#[trigger] self.occs@[i]).age < n - 1
                && m[self.occs@[i].age as int] == self.occs@[i].step by {
                assert(m[self.occs@[i].age as int]
                    == old(self).steps_by_age@.subrange(
                    1,
                    old(self).steps_by_age@.len() as int,
                )[self.occs@[i].age as int]);
            }
            assert(occs_ok(self.occs@, m, n - 1));
            assert(m[n - 1] == new_step);
        }
        self.add_duplicate(new_step, self.tunnel_length);
    }

    /// Checks if the tunnel won't collapse after the next step: whether two
    /// distinct occurrences currently in the window (equal values at
    /// distinct ages may pair with each other) sum to `new_step`.  The walk
    /// over the value-sorted occurrences exits early once the smallest
    /// remaining value reaches `new_step`, so a candidate of `0` is always
    /// reported unsafe (see `spec_safe`).  The query performs no mutation.
    #[verifier::loop_isolation(false)]
    pub fn is_tunnel_safe(&self, new_step: u128) -> (safe: bool)
        requires
            self.wf(),
        ensures
            safe == spec_safe(self@, new_step),
    {
        proof {
            lemma_pair_by_positions(self.occs@, self.steps_by_age@, new_step);
        }
        let ghost occs = self.occs@;
        let len = self.occs.len();
        let mut i: usize = 0;
        while i < len
            invariant
                i <= len,
                forall|p: int, q: int|
                    0 <= p < len && 0 <= q < len && p != q && (p < i || q < i) ==> (
                    #[trigger] occs[p]).step + (#[trigger] occs[q]).step != new_step,
            decreases len - i,
        {
            let a = self.occs[i].step;
            if a >= new_step {
                proof {
                    if spec_safe(self@, new_step) {
                        let (p, q) = choose|p: int, q: int|
                            0 <= p < occs.len() && 0 <= q < occs.len() && p != q && occs[p].step
                                + occs[q].step == new_step;
                        if !(p < i || q < i) {
                            assert(occs[p].step >= a);
                            assert(occs[q].step >= a);
                        }
                        assert(false);
                    }
                }
                return false;
            }
            let target = new_step - a;
            if i + 1 < len && self.occs[i + 1].step == a && target == a {
                proof {
                    assert(occs[i as int].step + occs[i + 1].step == new_step);
                    assert(occ_pair(occs, new_step));
                }
                return true;
            }
            let mut j: usize = i + 1;
            while j < len && self.occs[j].step < target
                invariant
                    i + 1 <= j <= len,
                    forall|q: int| i < q < j ==> (#[trigger] occs[q]).step < target,
                decreases len - j,
            {
                j = j + 1;
            }
            if j < len && self.occs[j].step == target {
                proof {
                    assert(occs[i as int].step + occs[j as int].step == new_step);
                    assert(occ_pair(occs, new_step));
                }
                return true;
            }
            proof {
                assert forall|p: int, q: int|
                    0 <= p < len && 0 <= q < len && p != q && (p < i + 1 || q < i + 1) implies (
                #[trigger] occs[p]).step + (#[trigger] occs[q]).step != new_step by {
                    if !(p < i || q < i) {
                        let other = if p == i { q } else { p };
                        assert(other > i && other < len);
                        if other < j {
                            assert(occs[other].step < target);
                        } else if other == j {
                            assert(occs[other].step != target);
                        } else {
                            assert(j < len);
                            assert(occs[j as int].step >= target);
                            assert(occs[j as int].step != target);
                            assert(occs[other].step >= occs[j as int].step);
                        }
                        assert(occs[other].step != target);
                        assert(occs[i as int].step + occs[other].step != new_step);
                    }
                }
            }
            i = i + 1;
        }
        proof {
            if spec_safe(self@, new_step) {
                let (p, q) = choose|p: int, q: int|
                    0 <= p < occs.len() && 0 <= q < occs.len() && p != q && occs[p].step
                        + occs[q].step == new_step;
                assert(false);
            }
        }
        false
    }
}

} // verus!
