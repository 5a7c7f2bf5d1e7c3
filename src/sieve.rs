use crate::trial::{is_prime, lemma_divides_trans};
use vstd::prelude::*;

verus! {

/// The numbers in `s` strictly increase.
pub open spec fn strictly_increasing(s: Seq<u64>) -> bool {
    forall|i: int, j: int| 0 <= i < j < s.len() ==> s[i] < s[j]
}

/// A number that is not prime, from 2 on, has a divisor `p` with
/// `p * p <= x`.
proof fn lemma_small_divisor_of_composite(x: int) -> (p: int)
    requires
        x >= 2,
        !is_prime(x),
    ensures
        p >= 2,
        p * p <= x,
        x % p == 0,
{
    let d = choose|d: int| 2 <= d < x && #[trigger] (x % d) == 0;
    vstd::arithmetic::div_mod::lemma_fundamental_div_mod(x, d);
    let q = x / d;
    assert(x == d * q) by (nonlinear_arith)
        requires
            x == d * q + 0,
    ;
    assert(q >= 2) by (nonlinear_arith)
        requires
            x == d * q,
            2 <= d < x,
    ;
    if d * d <= x {
        d
    } else {
        assert(q * q <= x) by (nonlinear_arith)
            requires
                x == d * q,
                d * d > x,
                q >= 2,
                d >= 2,
        ;
        vstd::arithmetic::div_mod::lemma_mod_multiples_basic(d, q);
        assert(d * q == q * d) by (nonlinear_arith);
        q
    }
}

/// A multiple of `i` from `i * i` on is not prime.
proof fn lemma_multiple_not_prime(k: int, i: int)
    requires
        i >= 2,
        k >= i * i,
        k % i == 0,
    ensures
        !is_prime(k),
{
    assert(i < k) by (nonlinear_arith)
        requires
            i >= 2,
            k >= i * i,
    ;
    assert(k % i == 0);
}

/// The primes below `n` in increasing order, by the sieve of Eratosthenes;
/// for `n` up to 2 the result is just 2.
pub fn prime_sieve(n: u64) -> (r: Vec<u64>)
    requires
        n <= usize::MAX,
    ensures
        strictly_increasing(r@),
        forall|x: u64| r@.contains(x) <==> is_prime(x as int) && (x < n || x == 2),
{
    if n <= 2 {
        let r = vec![2u64];
        proof {
            assert(is_prime(2)) by {
                assert forall|d: int| 2 <= d < 2 implies #[trigger] (2int % d) != 0 by {}
            }
            assert forall|x: u64| r@.contains(x) <==> is_prime(x as int) && (x < n || x == 2) by {
                if is_prime(x as int) && x < n {
                    assert(x >= 2);
                }
                if r@.contains(x) {
                    assert(r@[0] == 2);
                }
                if x == 2 {
                    assert(r@[0] == x);
                }
            }
        }
        return r;
    }
    let size = n as usize;
    let mut composite: Vec<bool> = Vec::new();
    let mut k: usize = 0;
    while k < size
        invariant
            k <= size,
            composite@.len() == k,
            forall|j: int| 0 <= j < k ==> !#[trigger] composite@[j],
        decreases size - k,
    {
        composite.push(false);
        k = k + 1;
    }
    let mut i: usize = 2;
    while i < size && i <= (size - 1) / i
        invariant
            size == n,
            n >= 3,
            2 <= i <= size,
            composite@.len() == size,
            forall|j: int| 0 <= j < size && #[trigger] composite@[j] ==> !is_prime(j) && j >= 2,
            forall|j: int, p: int|
                0 <= j < size && 2 <= p < i && p * p <= j && #[trigger] (j % p) == 0
                    ==> composite@[j],
        decreases size - i,
    {
        proof {
            assert(i * i <= size - 1) by (nonlinear_arith)
                requires
                    i as int <= (size - 1) as int / i as int,
                    i >= 2,
                    size >= 1,
            ;
        }
        if !composite[i] {
            let mut j: usize = i * i;
            proof {
                vstd::arithmetic::div_mod::lemma_mod_multiples_basic(i as int, i as int);
            }
            loop
                invariant
                    size == n,
                    2 <= i < size,
                    i * i <= j < size,
                    j % i == 0,
                    composite@.len() == size,
                    forall|m: int|
                        0 <= m < size && #[trigger] composite@[m] ==> !is_prime(m) && m >= 2,
                    forall|m: int, p: int|
                        0 <= m < size && 2 <= p < i && p * p <= m && #[trigger] (m % p) == 0
                            ==> composite@[m],
                    forall|m: int|
                        i * i <= m < j && #[trigger] (m % (i as int)) == 0 ==> composite@[m],
                ensures
                    composite@.len() == size,
                    forall|m: int|
                        0 <= m < size && #[trigger] composite@[m] ==> !is_prime(m) && m >= 2,
                    forall|m: int, p: int|
                        0 <= m < size && 2 <= p < i && p * p <= m && #[trigger] (m % p) == 0
                            ==> composite@[m],
                    forall|m: int|
                        i * i <= m < size && #[trigger] (m % (i as int)) == 0 ==> composite@[m],
                decreases size - j,
            {
                proof {
                    lemma_multiple_not_prime(j as int, i as int);
                    assert(i * i >= 4) by (nonlinear_arith)
                        requires
                            i >= 2,
                    ;
                }
                composite[j] = true;
                if j >= size - i {
                    proof {
                        assert forall|m: int|
                            i * i <= m < size && #[trigger] (m % (i as int)) == 0 implies composite@[m] by {
                            if m > j {
                                lemma_no_multiple_between(i as int, j as int, m);
                            }
                        }
                    }
                    break;
                }
                proof {
                    assert forall|m: int|
                        i * i <= m < j + i && #[trigger] (m % (i as int)) == 0 implies composite@[m] by {
                        if m > j {
                            lemma_no_multiple_between(i as int, j as int, m);
                        }
                    }
                    vstd::arithmetic::div_mod::lemma_mod_add_multiples_vanish(j as int, i as int);
                }
                j = j + i;
            }
        } else {
            proof {
                let q = lemma_small_divisor_of_composite(i as int);
                assert(q < i) by (nonlinear_arith)
                    requires
                        q >= 2,
                        q * q <= i,
                ;
                assert forall|m: int|
                    0 <= m < size && i * i <= m && #[trigger] (m % (i as int)) == 0 implies composite@[m] by {
                    lemma_divides_trans(m, i as int, q);
                    assert(q * q <= m) by (nonlinear_arith)
                        requires
                            q * q <= i,
                            i * i <= m,
                            i >= 2,
                    ;
                    assert(m % q == 0);
                }
            }
        }
        i = i + 1;
    }
    proof {
        if i < size {
            vstd::arithmetic::div_mod::lemma_fundamental_div_mod((size - 1) as int, i as int);
            let q = (size - 1) as int / i as int;
            assert(i * i > size - 1) by (nonlinear_arith)
                requires
                    i > q,
                    (size - 1) as int == i * q + ((size - 1) as int % (i as int)),
                    ((size - 1) as int % (i as int)) < i,
                    i >= 2,
            ;
        }
        assert forall|j: int| 2 <= j < size && !is_prime(j) implies #[trigger] composite@[j] by {
            let p = lemma_small_divisor_of_composite(j);
            assert(p < i) by (nonlinear_arith)
                requires
                    p >= 2,
                    p * p <= j,
                    j < size,
                    i >= size || i * i > size - 1,
            ;
            assert(j % p == 0);
        }
    }
    let mut primes: Vec<u64> = Vec::new();
    let mut x: usize = 2;
    while x < size
        invariant
            size == n,
            n >= 3,
            2 <= x <= size,
            composite@.len() == size,
            forall|j: int| 0 <= j < size && #[trigger] composite@[j] ==> !is_prime(j) && j >= 2,
            forall|j: int| 2 <= j < size && !is_prime(j) ==> #[trigger] composite@[j],
            strictly_increasing(primes@),
            forall|k: int| 0 <= k < primes@.len() ==> #[trigger] primes@[k] < x,
            forall|y: u64| #[trigger] primes@.contains(y) <==> 2 <= y < x && is_prime(y as int),
        decreases size - x,
    {
        let value = x as u64;
        if !composite[x] {
            proof {
                assert(value == x);
                assert(is_prime(x as int));
                assert forall|y: u64|
                    #[trigger] primes@.push(value).contains(y) <==> 2 <= y < x + 1 && is_prime(
                        y as int,
                    ) by {
                    let pushed = primes@.push(value);
                    if pushed.contains(y) && y != x {
                        let k = choose|k: int| 0 <= k < pushed.len() && #[trigger] pushed[k] == y;
                        assert(k < primes@.len());
                        assert(primes@[k] == y);
                        assert(primes@.contains(y));
                    }
                    if y == x {
                        assert(primes@.push(value)[primes@.len() as int] == y);
                    } else if primes@.contains(y) {
                        let k = choose|k: int| 0 <= k < primes@.len() && #[trigger] primes@[k] == y;
                        assert(primes@.push(value)[k] == y);
                    }
                }
            }
            primes.push(value);
        } else {
            proof {
                assert(!is_prime(x as int));
                assert forall|y: u64|
                    #[trigger] primes@.contains(y) <==> 2 <= y < x + 1 && is_prime(y as int) by {
                    if y == x {
                        assert(!is_prime(y as int));
                    }
                }
            }
        }
        x = x + 1;
    }
    proof {
        assert forall|x: u64| primes@.contains(x) <==> is_prime(x as int) && (x < n || x == 2) by {
            if is_prime(x as int) {
                assert(x >= 2);
            }
        }
    }
    primes
}

/// No multiple of `i` lies strictly between two consecutive ones.
proof fn lemma_no_multiple_between(i: int, j: int, m: int)
    requires
        i > 0,
        j % i == 0,
        j < m < j + i,
    ensures
        m % i != 0,
{
    vstd::arithmetic::div_mod::lemma_fundamental_div_mod(j, i);
    vstd::arithmetic::div_mod::lemma_fundamental_div_mod(m, i);
    if m % i == 0 {
        let a = j / i;
        let b = m / i;
        assert(false) by (nonlinear_arith)
            requires
                j == i * a + 0,
                m == i * b + 0,
                j < m < j + i,
                i > 0,
        ;
    }
}

} // verus!
