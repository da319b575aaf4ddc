use vstd::prelude::*;
use vstd::arithmetic::div_mod::{
    lemma_fundamental_div_mod,
    lemma_mod_multiples_basic,
    lemma_mod_multiples_vanish,
    lemma_mod_self_0,
    lemma_mul_mod_noop,
    lemma_small_mod,
};

verus! {

/// No number in `[2, bound)` divides `n`.
pub open spec fn no_divisor_below(n: int, bound: int) -> bool {
    forall|d: int| 2 <= d < bound ==> #[trigger] (n % d) != 0
}

/// `n` is a prime number.
pub open spec fn is_prime_spec(n: int) -> bool {
    n >= 2 && no_divisor_below(n, n)
}

/// `d` is the least divisor of `n` that is at least two.
pub open spec fn is_least_divisor(n: int, d: int) -> bool {
    &&& 2 <= d <= n
    &&& n % d == 0
    &&& no_divisor_below(n, d)
}

/// The product of the numbers in `s`.
pub open spec fn product(s: Seq<usize>) -> int
    decreases s.len(),
{
    if s.len() == 0 {
        1
    } else {
        product(s.drop_last()) * s.last()
    }
}

/// `n` is a power of two.
pub open spec fn is_power_of_two(n: nat) -> bool
    decreases n,
{
    if n <= 1 {
        n == 1
    } else {
        n % 2 == 0 && is_power_of_two(n / 2)
    }
}

/// A table of length `before`, asked to cover `x`, now has length `after`: unchanged when it
/// was longer than `x`, else the least power of two above `x`.
pub open spec fn covers(before: nat, x: nat, after: nat) -> bool {
    &&& after > x
    &&& before > x ==> after == before
    &&& before <= x ==> is_power_of_two(after) && after / 2 <= x
}

/// A multiple of `a` is a multiple of every divisor of `a`.
proof fn lemma_divisor_of_multiple(a: int, b: int, d: int)
    requires
        d > 0,
        a % d == 0,
    ensures
        (a * b) % d == 0,
{
    lemma_mul_mod_noop(a, b, d);
    lemma_small_mod(0, d as nat);
}

/// The least divisor of a number is prime.
proof fn lemma_least_divisor_is_prime(n: int, p: int)
    requires
        is_least_divisor(n, p),
    ensures
        is_prime_spec(p),
{
    lemma_fundamental_div_mod(n, p);
    assert forall|e: int| 2 <= e < p implies #[trigger] (p % e) != 0 by {
        if p % e == 0 {
            lemma_divisor_of_multiple(p, n / p, e);
            assert(n % e != 0);
        }
    }
}

/// Least-prime-divisor table: slot `i` of a table of length `m` holds the least divisor of
/// `i` that is at least two, for every `i` in `[2, m)`.
fn least_divisor_table(m: usize) -> (r: Vec<usize>)
    requires
        m <= usize::MAX / 2,
    ensures
        r@.len() == m,
        forall|i: int| 2 <= i < m ==> is_least_divisor(i, #[trigger] r@[i] as int),
{
    let mut table: Vec<usize> = Vec::new();
    let mut i: usize = 0;
    while i < m
        invariant
            i <= m,
            table@.len() == i,
            forall|k: int| 0 <= k < i ==> #[trigger] table@[k] == 0,
        decreases m - i,
    {
        table.push(0);
        i += 1;
    }
    let mut q: usize = 2;
    while q < m
        invariant
            2 <= q,
            m <= usize::MAX / 2,
            table@.len() == m,
            forall|i: int|
                2 <= i < m && #[trigger] table@[i] != 0 ==> is_least_divisor(i, table@[i] as int)
                    && table@[i] < q,
            forall|i: int| 2 <= i < m && i < q ==> #[trigger] table@[i] != 0,
            forall|i: int|
                2 <= i < m && #[trigger] table@[i] == 0 ==> no_divisor_below(i, q as int),
        decreases m - q,
    {
        let mut j: usize = q;
        let ghost mut k: int = 1;
        while j < m
            invariant
                2 <= q < m <= usize::MAX / 2,
                table@.len() == m,
                k >= 1,
                j == q * k,
                j >= q,
                j < m + q,
                forall|i: int|
                    2 <= i < m && #[trigger] table@[i] != 0 ==> is_least_divisor(
                        i,
                        table@[i] as int,
                    ) && table@[i] <= q,
                forall|i: int| 2 <= i < m && i < q ==> #[trigger] table@[i] != 0,
                forall|i: int|
                    2 <= i < m && #[trigger] table@[i] == 0 ==> no_divisor_below(i, q as int),
                forall|i: int| 2 <= i < m && i < j && #[trigger] table@[i] == 0 ==> i % q as int != 0,
            decreases m + q - j,
        {
            if table[j] == 0 {
                proof {
                    assert(q * k == k * q) by (nonlinear_arith);
                    lemma_mod_multiples_basic(k, q as int);
                }
                table.set(j, q);
            }
            proof {
                assert forall|i: int| j < i < j + q implies #[trigger] (i % q as int) != 0 by {
                    lemma_mod_multiples_vanish(k, i - j, q as int);
                    lemma_small_mod((i - j) as nat, q as nat);
                }
            }
            j = j + q;
            proof {
                k = k + 1;
                assert(j == q * k) by (nonlinear_arith)
                    requires
                        j == q * (k - 1) + q,
                ;
            }
        }
        proof {
            lemma_mod_self_0(q as int);
            assert forall|i: int|
                2 <= i < m && #[trigger] table@[i] == 0 implies no_divisor_below(
                i,
                q + 1,
            ) by {
                assert(i % q as int != 0);
            }
        }
        q += 1;
    }
    table
}

/// A least-prime-divisor table that grows on demand.
pub struct SieveUsize {
    table: Vec<usize>,
}

impl SieveUsize {
    /// The length of the table.
    pub closed spec fn spec_len(&self) -> nat {
        self.table@.len()
    }

    /// Slot `i` holds the least divisor of `i` for every `i` in `[2, len)`.
    pub closed spec fn wf(&self) -> bool {
        &&& self.table@.len() <= usize::MAX / 2
        &&& forall|i: int|
            2 <= i < self.table@.len() ==> is_least_divisor(i, #[trigger] self.table@[i] as int)
    }

    /// An empty sieve.
    pub fn new() -> (r: Self)
        ensures
            r.wf(),
            r.spec_len() == 0,
    {
        SieveUsize { table: Vec::new() }
    }

    /// The length of the sieve.
    pub fn len(&self) -> (r: usize)
        ensures
            r == self.spec_len(),
    {
        self.table.len()
    }

    /// A sieve of length `n`.
    pub fn with_len(n: usize) -> (r: Self)
        requires
            n <= usize::MAX / 2,
        ensures
            r.wf(),
            r.spec_len() == n,
    {
        SieveUsize { table: least_divisor_table(n) }
    }

    /// Makes the table longer than `x`; a table that is too short becomes the least power of
    /// two above `x`.
    fn cover(&mut self, x: usize)
        requires
            old(self).wf(),
            x < usize::MAX / 4,
        ensures
            final(self).wf(),
            covers(old(self).spec_len(), x as nat, final(self).spec_len()),
    {
        if self.table.len() <= x {
            let mut m: usize = 1;
            while m <= x
                invariant
                    1 <= m <= 2 * x + 1,
                    x < usize::MAX / 4,
                    is_power_of_two(m as nat),
                    m / 2 <= x,
                decreases 2 * x + 1 - m,
            {
                m = m * 2;
            }
            self.table = least_divisor_table(m);
        }
    }

    /// Whether `x` is prime; the sieve grows first when it is not longer than `x`.
    pub fn is_prime(&mut self, x: usize) -> (r: bool)
        requires
            old(self).wf(),
            1 <= x < usize::MAX / 4,
        ensures
            final(self).wf(),
            covers(old(self).spec_len(), x as nat, final(self).spec_len()),
            r == is_prime_spec(x as int),
    {
        self.cover(x);
        if x == 1 {
            return false;
        }
        let d = self.table[x];
        proof {
            assert(is_least_divisor(x as int, d as int));
            if d != x {
                assert(x as int % d as int == 0);
            }
        }
        d == x
    }

    /// The prime numbers below `n`, in ascending order; the sieve grows to cover them.
    pub fn prime_numbers(&mut self, n: usize) -> (r: Vec<usize>)
        requires
            old(self).wf(),
            n < usize::MAX / 4,
        ensures
            final(self).wf(),
            covers(old(self).spec_len(), n as nat, final(self).spec_len()),
            forall|k: int| 0 <= k < r@.len() ==> #[trigger] r@[k] < n && is_prime_spec(r@[k] as int),
            forall|k1: int, k2: int| 0 <= k1 < k2 < r@.len() ==> r@[k1] < r@[k2],
            forall|p: int| 0 <= p < n && is_prime_spec(p) ==> r@.contains(p as usize),
    {
        self.cover(n);
        let mut r: Vec<usize> = Vec::new();
        let mut i: usize = 2;
        while i < n
            invariant
                self.wf(),
                covers(old(self).spec_len(), n as nat, self.spec_len()),
                2 <= i,
                forall|k: int|
                    0 <= k < r@.len() ==> #[trigger] r@[k] < i && r@[k] < n && is_prime_spec(
                        r@[k] as int,
                    ),
                forall|k1: int, k2: int| 0 <= k1 < k2 < r@.len() ==> r@[k1] < r@[k2],
                forall|p: int| 0 <= p < i && is_prime_spec(p) ==> r@.contains(p as usize),
            decreases n - i,
        {
            let d = self.table[i];
            proof {
                assert(is_least_divisor(i as int, d as int));
                if d != i {
                    assert(i as int % d as int == 0);
                }
            }
            if d == i {
                let ghost before = r@;
                r.push(i);
                proof {
                    assert forall|p: int| 0 <= p < i + 1 && is_prime_spec(p) implies r@.contains(
                        p as usize,
                    ) by {
                        if p < i {
                            let w = choose|w: int| 0 <= w < before.len() && before[w] == p as usize;
                            assert(r@[w] == p as usize);
                        } else {
                            assert(r@[r@.len() - 1] == p as usize);
                        }
                    }
                }
            }
            i += 1;
        }
        r
    }

    /// The prime factors of `n` with multiplicity, in ascending order, read off the
    /// least-divisor table; the sieve grows to cover `n`.
    pub fn prime_factors_by_lookup(&mut self, n: usize) -> (r: Vec<usize>)
        requires
            old(self).wf(),
            1 <= n < usize::MAX / 4,
        ensures
            final(self).wf(),
            covers(old(self).spec_len(), n as nat, final(self).spec_len()),
            product(r@) == n,
            forall|k: int| 0 <= k < r@.len() ==> is_prime_spec(#[trigger] r@[k] as int),
            forall|k1: int, k2: int| 0 <= k1 < k2 < r@.len() ==> r@[k1] <= r@[k2],
    {
        self.cover(n);
        let mut r: Vec<usize> = Vec::new();
        let mut x: usize = n;
        while x > 1
            invariant
                self.wf(),
                covers(old(self).spec_len(), n as nat, self.spec_len()),
                1 <= x <= n,
                product(r@) * x == n,
                forall|k: int| 0 <= k < r@.len() ==> is_prime_spec(#[trigger] r@[k] as int),
                forall|k1: int, k2: int| 0 <= k1 < k2 < r@.len() ==> r@[k1] <= r@[k2],
                r@.len() > 0 ==> no_divisor_below(x as int, r@.last() as int),
            decreases x,
        {
            let p = self.table[x];
            let ghost before = r@;
            proof {
                assert(is_least_divisor(x as int, p as int));
                lemma_least_divisor_is_prime(x as int, p as int);
                lemma_fundamental_div_mod(x as int, p as int);
                if before.len() > 0 {
                    assert(before.last() <= p) by {
                        if p < before.last() {
                            assert((x as int % p as int) != 0);
                        }
                    }
                }
            }
            r.push(p);
            let y = x / p;
            proof {
                assert(r@.drop_last() =~= before);
                let pb = product(before);
                assert(pb * p * y == pb * x) by (nonlinear_arith)
                    requires
                        x == p * y,
                ;
                assert forall|d: int| 2 <= d < p implies #[trigger] (y as int % d) != 0 by {
                    if y as int % d == 0 {
                        lemma_divisor_of_multiple(y as int, p as int, d);
                        assert(y * p == x) by (nonlinear_arith)
                            requires
                                x == p * y,
                        ;
                    }
                }
                assert(1 <= y < x) by (nonlinear_arith)
                    requires
                        x == p * y,
                        p >= 2,
                        x >= 2,
                ;
            }
            x = y;
        }
        r
    }
}

} // verus!
