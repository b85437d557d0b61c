//! A sliding window that accepts each number once.
use vstd::arithmetic::div_mod::*;
use vstd::prelude::*;

verus! {

/// Remembers the numbers accepted among the `width` most recent ones. Anything
/// older counts as already seen.
pub struct ReplayWindow {
    width: usize,
    highest: Option<u64>,
    seen: Vec<bool>,
}

proof fn lemma_distinct_slots(a: int, b: int, w: int)
    requires
        0 <= a < b,
        b - a < w,
    ensures
        a % w != b % w,
{
    lemma_fundamental_div_mod(a, w);
    lemma_fundamental_div_mod(b, w);
    if a % w == b % w {
        assert(b - a == w * (b / w - a / w)) by (nonlinear_arith)
            requires
                a == w * (a / w) + a % w,
                b == w * (b / w) + b % w,
                a % w == b % w,
        ;
        let k: int = b / w - a / w;
        assert(k <= 0 || w * k >= w) by (nonlinear_arith)
            requires
                w > 0,
        ;
        assert(k > 0 || w * k <= 0) by (nonlinear_arith)
            requires
                w > 0,
        ;
    }
}

/// The numbers that are refused after `n` was marked.
pub open spec fn refused_after(refused: Set<u64>, width: nat, n: u64) -> Set<u64> {
    refused.union(Set::new(|m: u64| m == n || m + width <= n))
}

impl ReplayWindow {
    pub closed spec fn wf(&self) -> bool {
        &&& self.width > 0
        &&& self.seen@.len() == self.width
        &&& self.highest is None ==> forall|i: int| 0 <= i < self.seen@.len() ==> !self.seen@[i]
    }

    /// Numbers within which order is kept.
    pub closed spec fn spec_width(&self) -> nat {
        self.width as nat
    }

    spec fn spec_contains(&self, n: u64) -> bool {
        match self.highest {
            None => false,
            Some(h) => n <= h && (h - n >= self.width || self.seen@[(n as int) % (
            self.width as int)]),
        }
    }

    /// The numbers that are no longer accepted.
    pub closed spec fn refused(&self) -> Set<u64> {
        Set::new(|n: u64| self.spec_contains(n))
    }

    pub fn new(width: usize) -> (r: Self)
        requires
            width > 0,
        ensures
            r.wf(),
            r.spec_width() == width,
            r.refused() == Set::<u64>::empty(),
    {
        let mut seen: Vec<bool> = Vec::new();
        while seen.len() < width
            invariant
                seen@.len() <= width,
                forall|i: int| 0 <= i < seen@.len() ==> !seen@[i],
            decreases width - seen@.len(),
        {
            seen.push(false);
        }
        let r: ReplayWindow = ReplayWindow { width, highest: None, seen };
        assert(r.refused() =~= Set::<u64>::empty());
        r
    }

    fn slot(&self, n: u64) -> (r: usize)
        requires
            self.wf(),
        ensures
            r == (n as int) % (self.width as int),
            r < self.seen@.len(),
    {
        proof {
            lemma_mod_bound(n as int, self.width as int);
        }
        (n % self.width as u64) as usize
    }

    pub fn contains(&self, n: u64) -> (r: bool)
        requires
            self.wf(),
        ensures
            r == self.refused().contains(n),
    {
        match self.highest {
            None => false,
            Some(h) => n <= h && (h - n >= self.width as u64 || self.seen[self.slot(n)]),
        }
    }

    /// Accepts a number. Returns whether it was accepted for the first time.
    pub fn mark(&mut self, n: u64) -> (r: bool)
        requires
            old(self).wf(),
        ensures
            final(self).wf(),
            final(self).spec_width() == old(self).spec_width(),
            r == !old(self).refused().contains(n),
            final(self).refused() == refused_after(
                old(self).refused(),
                old(self).spec_width(),
                n,
            ),
    {
        let ghost w: int = self.width as int;
        let ghost expected: Set<u64> = refused_after(self.refused(), self.spec_width(), n);
        if self.contains(n) {
            assert(self.refused() =~= expected);
            return false;
        }
        let slot: usize = self.slot(n);
        match self.highest {
            None => {
                self.seen[slot] = true;
                self.highest = Some(n);
                assert forall|m: u64| self.spec_contains(m) == #[trigger] expected.contains(m) by {
                    if m < n && n - m < w {
                        lemma_distinct_slots(m as int, n as int, w);
                        lemma_mod_bound(m as int, w);
                    }
                }
            },
            Some(h) => {
                if n > h {
                    let ghost before: Seq<bool> = self.seen@;
                    let steps: u64 = if n - h >= self.width as u64 {
                        self.width as u64
                    } else {
                        n - h
                    };
                    let mut k: u64 = 0;
                    while k < steps
                        invariant
                            w == self.width,
                            w > 0,
                            self.wf(),
                            self.highest == Some(h),
                            h < n,
                            k <= steps,
                            steps == if n - h >= w {
                                w
                            } else {
                                n - h
                            },
                            self.seen@.len() == before.len(),
                            forall|m: u64|
                                m <= h && n - m < w ==> #[trigger] self.seen@[(m as int) % w]
                                    == before[(m as int) % w],
                            forall|m: u64|
                                n - k < m <= n ==> !#[trigger] self.seen@[(m as int) % w],
                        decreases steps - k,
                    {
                        let at: usize = self.slot(n - k);
                        let ghost now: Seq<bool> = self.seen@;
                        self.seen[at] = false;
                        proof {
                            assert forall|m: u64| m <= h && n - m < w implies #[trigger] self.seen@[(
                            m as int) % w] == before[(m as int) % w] by {
                                lemma_distinct_slots(m as int, n - k, w);
                                lemma_mod_bound(m as int, w);
                                assert(now[(m as int) % w] == before[(m as int) % w]);
                            }
                            assert forall|m: u64| n - k - 1 < m <= n implies !#[trigger] self.seen@[(
                            m as int) % w] by {
                                lemma_mod_bound(m as int, w);
                                if m != n - k {
                                    assert(!now[(m as int) % w]);
                                }
                            }
                        }
                        k = k + 1;
                    }
                    let ghost cleared: Seq<bool> = self.seen@;
                    self.seen[slot] = true;
                    self.highest = Some(n);
                    assert forall|m: u64|
                        self.spec_contains(m) == #[trigger] expected.contains(m) by {
                        if m < n && n - m < w {
                            lemma_distinct_slots(m as int, n as int, w);
                            lemma_mod_bound(m as int, w);
                            if m <= h {
                                assert(cleared[(m as int) % w] == before[(m as int) % w]);
                            } else {
                                assert(!cleared[(m as int) % w]);
                            }
                        }
                    }
                } else {
                    let ghost before: Seq<bool> = self.seen@;
                    self.seen[slot] = true;
                    assert forall|m: u64|
                        self.spec_contains(m) == #[trigger] expected.contains(m) by {
                        if m <= h && h - m < w {
                            lemma_mod_bound(m as int, w);
                            if m < n {
                                lemma_distinct_slots(m as int, n as int, w);
                            } else if n < m {
                                lemma_distinct_slots(n as int, m as int, w);
                            }
                        }
                    }
                }
            },
        }
        assert(self.refused() =~= expected);
        true
    }
}

/// A number that was marked stays refused, whatever is marked later.
pub proof fn marked_stays_refused(refused: Set<u64>, width: nat, n: u64, later: u64)
    requires
        width > 0,
    ensures
        refused_after(refused, width, n).contains(n),
        refused.subset_of(refused_after(refused, width, later)),
{
}

/// Numbers ahead of everything marked so far are always accepted.
pub proof fn later_number_is_accepted(refused: Set<u64>, width: nat, n: u64, later: u64)
    requires
        n < later,
        width > 0,
        forall|m: u64| refused.contains(m) ==> m <= n,
    ensures
        !refused_after(refused, width, n).contains(later),
{
}

} // verus!
