//! Work that is not worth doing each time.
use vstd::prelude::*;

verus! {

/// A counter that gives a sign every `N` ticks.
pub struct Tick<const N: u32> {
    tick_count: u32,
}

impl<const N: u32> Tick<N> {
    /// The number of the next tick.
    pub closed spec fn count(&self) -> u32 {
        self.tick_count
    }

    /// The number of the tick after the one with number `count`.
    pub open spec fn next(count: u32) -> u32 {
        if count == u32::MAX {
            0
        } else {
            (count + 1) as u32
        }
    }

    /// The number of the tick that comes `n` ticks after the one with number `count`.
    pub open spec fn after(count: u32, n: nat) -> u32
        decreases n,
    {
        if n == 0 {
            count
        } else {
            Self::next(Self::after(count, (n - 1) as nat))
        }
    }

    /// The tick with this number gives a sign.
    pub open spec fn fires(count: u32) -> bool {
        count as int % N as int == 0
    }

    /// A counter before its first tick.
    pub fn new() -> (tick: Tick<N>)
        ensures
            tick.count() == 1,
    {
        Tick { tick_count: 1 }
    }

    /// Counts a tick. Says whether it gives a sign.
    pub fn tick(&mut self) -> (fires: bool)
        requires
            N > 0,
        ensures
            fires == Tick::<N>::fires(old(self).count()),
            final(self).count() == Tick::<N>::next(old(self).count()),
    {
        let cur = self.tick_count;
        self.tick_count = cur.wrapping_add(1);
        cur % N == 0
    }

    /// Starts over.
    pub fn clear(&mut self)
        ensures
            final(self).count() == 1,
    {
        self.tick_count = 1;
    }

    /// As long as the numbers do not run out, they go up by one.
    proof fn after_is(count: u32, n: nat)
        requires
            count + n <= u32::MAX,
        ensures
            Self::after(count, n) == count + n,
        decreases n,
    {
        if n > 0 {
            Self::after_is(count, (n - 1) as nat);
        }
    }

    /// Of the ticks of a new counter, the `N`th gives a sign, and so does every `N`th after it:
    /// those, and no others.
    pub proof fn every_nth_fires(n: nat)
        requires
            N > 0,
            n < u32::MAX,
        ensures
            Self::fires(Self::after(1, n)) <==> (n + 1) as int % N as int == 0,
    {
        Self::after_is(1, n);
    }

    /// How many of the `m` ticks from the one with number `count` on give a sign.
    pub open spec fn signs(count: u32, m: nat) -> nat
        decreases m,
    {
        if m == 0 {
            0
        } else {
            Self::signs(count, (m - 1) as nat) + if Self::fires(
                Self::after(count, (m - 1) as nat),
            ) {
                1nat
            } else {
                0nat
            }
        }
    }

    /// Of the first `m` ticks of a new counter, one in `N` gives a sign: no tick is lost or
    /// counted twice.
    pub proof fn one_sign_for_each_n(m: nat)
        requires
            N > 0,
            m < u32::MAX,
        ensures
            Self::signs(1, m) == m as int / N as int,
        decreases m,
    {
        let n = N as int;
        if m == 0 {
            vstd::arithmetic::div_mod::lemma_div_basics(n);
        } else {
            Self::one_sign_for_each_n((m - 1) as nat);
            Self::every_nth_fires((m - 1) as nat);
            let x = m as int;
            vstd::arithmetic::div_mod::lemma_fundamental_div_mod(x, n);
            vstd::arithmetic::div_mod::lemma_fundamental_div_mod(x - 1, n);
            vstd::arithmetic::div_mod::lemma_mod_bound(x, n);
            vstd::arithmetic::div_mod::lemma_mod_bound(x - 1, n);
            let q = x / n;
            let r = x % n;
            let p = (x - 1) / n;
            let t = (x - 1) % n;
            assert(q == p + if r == 0 {
                1int
            } else {
                0int
            }) by (nonlinear_arith)
                requires
                    n > 0,
                    x == n * q + r,
                    x - 1 == n * p + t,
                    0 <= r < n,
                    0 <= t < n,
            ;
        }
    }

    /// Of `N` ticks in a row, one gives a sign, and only one.
    pub proof fn one_in_n_fires(count: u32) -> (at: nat)
        requires
            N > 0,
            count + N <= u32::MAX,
        ensures
            at < N,
            Self::fires(Self::after(count, at)),
            forall|i: nat|
                i < N && #[trigger] Self::fires(Self::after(count, i)) ==> i == at,
    {
        let c = count as int;
        let n = N as int;
        let at = (if c % n == 0 {
            0
        } else {
            n - c % n
        }) as nat;
        vstd::arithmetic::div_mod::lemma_mod_bound(c, n);
        assert((c + at) % n == 0) by {
            vstd::arithmetic::div_mod::lemma_fundamental_div_mod(c, n);
            if c % n != 0 {
                assert(c + at == n * (c / n) + n);
                assert(c + at == n * (c / n + 1)) by (nonlinear_arith)
                    requires
                        c + at == n * (c / n) + n,
                ;
                vstd::arithmetic::div_mod::lemma_mod_multiples_basic(c / n + 1, n);
                assert((c / n + 1) * n == n * (c / n + 1)) by (nonlinear_arith);
            }
        }
        Self::after_is(count, at);
        assert forall|i: nat|
            i < N && #[trigger] Self::fires(Self::after(count, i)) implies i == at by {
            Self::after_is(count, i);
            let a = c + at;
            let b = c + i;
            vstd::arithmetic::div_mod::lemma_fundamental_div_mod(a, n);
            vstd::arithmetic::div_mod::lemma_fundamental_div_mod(b, n);
            let x = a / n;
            let y = b / n;
            assert(x == y) by (nonlinear_arith)
                requires
                    n > 0,
                    a == n * x,
                    b == n * y,
                    -n < a - b < n,
            ;
        }
        at
    }
}

} // verus!
