use crate::miller_rabin::{
    is_probably_prime, is_probably_prime_limited, miller_rabin_passes, probably_prime,
};
use vstd::prelude::*;

verus! {

/// `q` has none of 2, 3 and 5 as a divisor.
pub open spec fn prime_to_30(q: int) -> bool {
    q % 2 != 0 && q % 3 != 0 && q % 5 != 0
}

/// `q` is one of the numbers the generator hands out: 2, 3 and 5, and above
/// them each number prime to 30 that passes the Miller-Rabin test, with every
/// base of its set or with at most `cap` bases.
pub open spec fn generated(q: int, cap: Option<usize>) -> bool {
    if q < 7 {
        q == 2 || q == 3 || q == 5
    } else {
        prime_to_30(q) && match cap {
            None => probably_prime(q),
            Some(k) => miller_rabin_passes(q, k as nat),
        }
    }
}

/// The first number from `position` up to (excluding) `stop` that the
/// generator hands out.
pub open spec fn first_from(position: u64, stop: u64, cap: Option<usize>) -> Option<u64>
    decreases stop - position,
{
    if position >= stop {
        None
    } else if generated(position as int, cap) {
        Some(position)
    } else {
        first_from((position + 1) as u64, stop, cap)
    }
}

/// Every number from `position` up to (excluding) `stop` that the generator
/// hands out, in increasing order.
pub open spec fn generated_between(position: u64, stop: u64, cap: Option<usize>) -> Seq<u64>
    decreases stop - position,
{
    if position >= stop {
        Seq::empty()
    } else if generated(position as int, cap) {
        seq![position].add(generated_between((position + 1) as u64, stop, cap))
    } else {
        generated_between((position + 1) as u64, stop, cap)
    }
}

/// The position after a call of `next` that returned `found`.
pub open spec fn position_after(position: u64, stop: u64, found: Option<u64>) -> u64 {
    match found {
        Some(q) => (q + 1) as u64,
        None => if position < stop {
            stop
        } else {
            position
        },
    }
}

/// What `count` calls of `next` from `position` hand out, and the position
/// they leave.
pub open spec fn take_primes(position: u64, stop: u64, cap: Option<usize>, count: nat) -> (
    Seq<u64>,
    u64,
)
    decreases count,
{
    if count == 0 {
        (Seq::empty(), position)
    } else {
        match first_from(position, stop, cap) {
            None => (Seq::empty(), position_after(position, stop, None)),
            Some(q) => {
                let rest = take_primes((q + 1) as u64, stop, cap, (count - 1) as nat);
                (seq![q].add(rest.0), rest.1)
            },
        }
    }
}

/// A forward-only cursor over a range of integers that hands out, one
/// after another, the primes in it.
pub struct PrimeGenerator {
    position: u64,
    stop: u64,
    iterations: Option<usize>,
}

/// Skipping integers that the generator never hands out does not change
/// which one it finds first.
proof fn lemma_first_from_skip(a: u64, c: u64, stop: u64, cap: Option<usize>)
    requires
        a <= c <= stop,
        forall|q: int| a <= q < c ==> !#[trigger] generated(q, cap),
    ensures
        first_from(a, stop, cap) == first_from(c, stop, cap),
    decreases c - a,
{
    if a < c {
        assert(!generated(a as int, cap));
        lemma_first_from_skip((a + 1) as u64, c, stop, cap);
    }
}

/// The whole run of generated numbers is the first of them followed by the
/// run after it.
proof fn lemma_generated_between_first(position: u64, stop: u64, cap: Option<usize>)
    ensures
        generated_between(position, stop, cap) == match first_from(position, stop, cap) {
            None => Seq::empty(),
            Some(q) => seq![q].add(generated_between((q + 1) as u64, stop, cap)),
        },
    decreases stop - position,
{
    if position < stop && !generated(position as int, cap) {
        lemma_generated_between_first((position + 1) as u64, stop, cap);
    }
}

/// The first generated number lies in the range.
proof fn lemma_first_from_in_range(position: u64, stop: u64, cap: Option<usize>)
    ensures
        first_from(position, stop, cap) matches Some(q) ==> position <= q < stop && generated(
            q as int,
            cap,
        ),
    decreases stop - position,
{
    if position < stop && !generated(position as int, cap) {
        lemma_first_from_in_range((position + 1) as u64, stop, cap);
    }
}

/// At or past the end nothing more is handed out and the position stays.
proof fn lemma_take_exhausted(position: u64, stop: u64, cap: Option<usize>, count: nat)
    requires
        position >= stop,
    ensures
        take_primes(position, stop, cap, count) == (Seq::<u64>::empty(), position),
{
}

/// Distance from residue `r` modulo 30 to the next residue prime to 30.
fn wheel_skip(r: u64) -> (k: u64)
    requires
        r < 30,
    ensures
        1 <= k <= 6,
        forall|i: int| 0 < i < k ==> !#[trigger] prime_to_30(r + i),
{
    if r < 1 {
        1 - r
    } else if r < 7 {
        7 - r
    } else if r < 11 {
        11 - r
    } else if r < 13 {
        13 - r
    } else if r < 17 {
        17 - r
    } else if r < 19 {
        19 - r
    } else if r < 23 {
        23 - r
    } else if r < 29 {
        29 - r
    } else {
        31 - r
    }
}

/// A number and its residue modulo 30, moved by the same amount, agree
/// modulo 2, 3 and 5.
proof fn lemma_residue_30(c: int, i: int)
    requires
        c >= 0,
    ensures
        prime_to_30(c + i) == prime_to_30(c % 30 + i),
{
    let q = c / 30;
    let r = c % 30;
    vstd::arithmetic::div_mod::lemma_fundamental_div_mod(c, 30);
    vstd::arithmetic::div_mod::lemma_mod_multiples_vanish(15 * q, r + i, 2);
    vstd::arithmetic::div_mod::lemma_mod_multiples_vanish(10 * q, r + i, 3);
    vstd::arithmetic::div_mod::lemma_mod_multiples_vanish(6 * q, r + i, 5);
}

/// Where `next_n_numbers` with `count` moves the cursor from `position`:
/// `count` places on, but not past `stop`.
pub open spec fn numbers_end(position: u64, stop: u64, count: u64) -> u64 {
    if count >= stop - position {
        stop
    } else {
        (position + count) as u64
    }
}

/// The numbers handed out lie at or after where the search started and
/// before the position it leaves; that position never moves back.
proof fn lemma_take_primes_bounds(position: u64, stop: u64, cap: Option<usize>, count: nat)
    ensures
        take_primes(position, stop, cap, count).1 >= position,
        forall|i: int|
            0 <= i < take_primes(position, stop, cap, count).0.len() ==> position
                <= #[trigger] take_primes(position, stop, cap, count).0[i] < take_primes(
                position,
                stop,
                cap,
                count,
            ).1,
    decreases count,
{
    if count > 0 {
        lemma_first_from_in_range(position, stop, cap);
        if let Some(q) = first_from(position, stop, cap) {
            lemma_take_primes_bounds((q + 1) as u64, stop, cap, (count - 1) as nat);
            let rest = take_primes((q + 1) as u64, stop, cap, (count - 1) as nat);
            let all = take_primes(position, stop, cap, count);
            assert forall|i: int| 0 <= i < all.0.len() implies position <= #[trigger] all.0[i]
                < all.1 by {
                if i > 0 {
                    assert(all.0[i] == rest.0[i - 1]);
                }
            }
        }
    }
}

/// Taking `a` primes and then `b` more hands out what taking `a + b` at once
/// does, and leaves the same position.
proof fn lemma_take_primes_split(position: u64, stop: u64, cap: Option<usize>, a: nat, b: nat)
    ensures
        ({
            let first = take_primes(position, stop, cap, a);
            let second = take_primes(first.1, stop, cap, b);
            take_primes(position, stop, cap, a + b) == (first.0 + second.0, second.1)
        }),
    decreases a,
{
    if a == 0 {
        assert(Seq::<u64>::empty() + take_primes(position, stop, cap, b).0 =~= take_primes(
            position,
            stop,
            cap,
            b,
        ).0);
    } else {
        match first_from(position, stop, cap) {
            None => {
                let after = position_after(position, stop, None);
                lemma_take_exhausted(after, stop, cap, b);
                assert(Seq::<u64>::empty() + Seq::<u64>::empty() =~= Seq::<u64>::empty());
            },
            Some(q) => {
                lemma_take_primes_split((q + 1) as u64, stop, cap, (a - 1) as nat, b);
                let first = take_primes((q + 1) as u64, stop, cap, (a - 1) as nat);
                let second = take_primes(first.1, stop, cap, b);
                assert((a + b - 1) as nat == (a - 1) as nat + b);
                assert(seq![q].add(first.0 + second.0) =~= seq![q].add(first.0) + second.0);
            },
        }
    }
}

/// Two calls of `next_n_primes` with `count` on one generator hand out
/// consecutive, disjoint runs of primes, the second wholly above the first,
/// whose concatenation is what one call with `2 * count` hands out from the
/// same position; both ways leave the same position.
pub proof fn next_n_primes_twice(position: u64, stop: u64, cap: Option<usize>, count: nat)
    ensures
        ({
            let first = take_primes(position, stop, cap, count);
            let second = take_primes(first.1, stop, cap, count);
            let both = take_primes(position, stop, cap, 2 * count);
            &&& both.0 == first.0 + second.0
            &&& both.1 == second.1
            &&& forall|i: int, j: int|
                0 <= i < first.0.len() && 0 <= j < second.0.len() ==> #[trigger] first.0[i]
                    < #[trigger] second.0[j]
        }),
{
    lemma_take_primes_split(position, stop, cap, count, count);
    assert(2 * count == count + count);
    let first = take_primes(position, stop, cap, count);
    lemma_take_primes_bounds(position, stop, cap, count);
    lemma_take_primes_bounds(first.1, stop, cap, count);
}

/// Once the position is at or past the end, every further call of `next`
/// reports exhaustion and leaves the position where it is, and so does any
/// number of calls of `next_n_primes`.
pub proof fn exhausted_stays_exhausted(position: u64, stop: u64, cap: Option<usize>, count: nat)
    requires
        position >= stop,
    ensures
        first_from(position, stop, cap) is None,
        position_after(position, stop, None) == position,
        take_primes(position, stop, cap, count) == (Seq::<u64>::empty(), position),
{
    lemma_take_exhausted(position, stop, cap, count);
}

impl PrimeGenerator {
    /// A generator over `0..stop` with the full Miller-Rabin test.
    pub fn new(stop: u64) -> (g: Self)
        ensures
            g.spec_position() == 0,
            g.spec_stop() == stop,
            g.spec_iterations() is None,
    {
        PrimeGenerator { position: 0, stop, iterations: None }
    }

    /// A generator over `start..stop` with the full Miller-Rabin test.
    pub fn from_range(start: u64, stop: u64) -> (g: Self)
        ensures
            g.spec_position() == start,
            g.spec_stop() == stop,
            g.spec_iterations() is None,
    {
        PrimeGenerator { position: start, stop, iterations: None }
    }

    /// A generator over `0..stop` that tries at most `iterations` bases.
    pub fn with_iterations(stop: u64, iterations: usize) -> (g: Self)
        ensures
            g.spec_position() == 0,
            g.spec_stop() == stop,
            g.spec_iterations() == Some(iterations),
    {
        PrimeGenerator { position: 0, stop, iterations: Some(iterations) }
    }

    /// A generator over `start..stop` that tries at most `iterations` bases.
    pub fn from_range_with_iterations(start: u64, stop: u64, iterations: usize) -> (g: Self)
        ensures
            g.spec_position() == start,
            g.spec_stop() == stop,
            g.spec_iterations() == Some(iterations),
    {
        PrimeGenerator { position: start, stop, iterations: Some(iterations) }
    }

    /// Sets or removes the cap on Miller-Rabin bases.
    pub fn set_iteration_cap(&mut self, iterations: Option<usize>)
        ensures
            final(self).spec_position() == old(self).spec_position(),
            final(self).spec_stop() == old(self).spec_stop(),
            final(self).spec_iterations() == iterations,
    {
        self.iterations = iterations;
    }

    /// Where the next search starts.
    pub fn position(&self) -> (r: u64)
        ensures
            r == self.spec_position(),
    {
        self.position
    }

    /// The end of the range, excluded.
    pub fn stop(&self) -> (r: u64)
        ensures
            r == self.spec_stop(),
    {
        self.stop
    }

    /// The cap on Miller-Rabin bases, if any.
    pub fn iterations(&self) -> (r: Option<usize>)
        ensures
            r == self.spec_iterations(),
    {
        self.iterations
    }

    /// The position the next search starts from.
    pub closed spec fn spec_position(&self) -> u64 {
        self.position
    }

    /// The end of the range, excluded.
    pub closed spec fn spec_stop(&self) -> u64 {
        self.stop
    }

    /// The cap on Miller-Rabin bases, if any.
    pub closed spec fn spec_iterations(&self) -> Option<usize> {
        self.iterations
    }

    /// Whether `q` is handed out by the generator in `next`: tested by the
    /// generator's rule.
    fn is_generated(&self, q: u64) -> (r: bool)
        ensures
            r == generated(q as int, self.iterations),
    {
        if q < 7 {
            q == 2 || q == 3 || q == 5
        } else if q % 2 == 0 || q % 3 == 0 || q % 5 == 0 {
            false
        } else {
            match self.iterations {
                None => is_probably_prime(q as u128),
                Some(k) => is_probably_prime_limited(q as u128, k),
            }
        }
    }

    /// The next prime from the current position, before `stop`; `None` once
    /// the range is exhausted, after which every call returns `None`.
    pub fn next(&mut self) -> (r: Option<u64>)
        ensures
            r == first_from(
                old(self).spec_position(),
                old(self).spec_stop(),
                old(self).spec_iterations(),
            ),
            final(self).spec_position() == position_after(
                old(self).spec_position(),
                old(self).spec_stop(),
                r,
            ),
            final(self).spec_stop() == old(self).spec_stop(),
            final(self).spec_iterations() == old(self).spec_iterations(),
            old(self).spec_position() >= old(self).spec_stop() ==> r is None && *final(self)
                == *old(self),
            r is None ==> final(self).spec_position() >= final(self).spec_stop(),
    {
        let ghost start = self.position;
        if self.position >= self.stop {
            return None;
        }
        let mut c = self.position;
        while c < self.stop
            invariant
                start <= c <= self.stop,
                start == self.position,
                *self == *old(self),
                start < self.stop,
                forall|q: int| start <= q < c ==> !#[trigger] generated(q, self.iterations),
            decreases self.stop - c,
        {
            if self.is_generated(c) {
                proof {
                    lemma_first_from_skip(start, c, self.stop, self.iterations);
                }
                self.position = c + 1;
                return Some(c);
            }
            if c < 7 {
                c = c + 1;
            } else {
                let k = wheel_skip(c % 30);
                proof {
                    assert forall|q: int| c < q < c + k implies !#[trigger] generated(
                        q,
                        self.iterations,
                    ) by {
                        lemma_residue_30(c as int, q - c);
                        assert(!prime_to_30(c % 30 + (q - c)));
                    }
                }
                if c > self.stop - k {
                    c = self.stop;
                } else {
                    c = c + k;
                }
            }
        }
        proof {
            lemma_first_from_skip(start, c, self.stop, self.iterations);
        }
        self.position = self.stop;
        None
    }

    /// The next `count` primes, or fewer where the range ends first; `None`
    /// when none is left.
    pub fn next_n_primes(&mut self, count: usize) -> (r: Option<Vec<u64>>)
        ensures
            ({
                let taken = take_primes(
                    old(self).spec_position(),
                    old(self).spec_stop(),
                    old(self).spec_iterations(),
                    count as nat,
                );
                &&& r is None <==> taken.0.len() == 0
                &&& r matches Some(v) ==> v@ == taken.0
                &&& final(self).spec_position() == taken.1
            }),
            final(self).spec_stop() == old(self).spec_stop(),
            final(self).spec_iterations() == old(self).spec_iterations(),
    {
        let ghost start = self.position;
        let mut found: Vec<u64> = Vec::new();
        let mut i: usize = 0;
        while i < count
            invariant
                i <= count,
                self.stop == old(self).stop,
                self.iterations == old(self).iterations,
                take_primes(start, self.stop, self.iterations, count as nat) == (
                    found@ + take_primes(
                        self.position,
                        self.stop,
                        self.iterations,
                        (count - i) as nat,
                    ).0,
                    take_primes(self.position, self.stop, self.iterations, (count - i) as nat).1,
                ),
            ensures
                self.stop == old(self).stop,
                self.iterations == old(self).iterations,
                take_primes(start, self.stop, self.iterations, count as nat) == (
                    found@,
                    self.position,
                ),
            decreases count - i,
        {
            let ghost before = self.position;
            let ghost rest = take_primes(
                before,
                self.stop,
                self.iterations,
                (count - i - 1) as nat,
            );
            match self.next() {
                Some(q) => {
                    proof {
                        assert(found@.push(q) + take_primes(
                            self.position,
                            self.stop,
                            self.iterations,
                            (count - i - 1) as nat,
                        ).0 =~= found@ + seq![q].add(
                            take_primes(
                                self.position,
                                self.stop,
                                self.iterations,
                                (count - i - 1) as nat,
                            ).0,
                        ));
                    }
                    found.push(q);
                },
                None => {
                    proof {
                        lemma_take_exhausted(self.position, self.stop, self.iterations, 0);
                        assert(found@ + Seq::<u64>::empty() =~= found@);
                    }
                    i = count;
                    break ;
                },
            }
            i = i + 1;
        }
        proof {
            assert(found@ + Seq::<u64>::empty() =~= found@);
        }
        if found.len() == 0 {
            None
        } else {
            Some(found)
        }
    }

    /// Moves the cursor `count` places on, but not past the end, and returns
    /// the primes among the numbers passed; `None` when the range was already
    /// exhausted.
    pub fn next_n_numbers(&mut self, count: u64) -> (r: Option<Vec<u64>>)
        ensures
            old(self).spec_position() >= old(self).spec_stop() ==> r is None && *final(self)
                == *old(self),
            old(self).spec_position() < old(self).spec_stop() ==> {
                let end = numbers_end(old(self).spec_position(), old(self).spec_stop(), count);
                &&& r matches Some(v) && v@ == generated_between(
                    old(self).spec_position(),
                    end,
                    old(self).spec_iterations(),
                )
                &&& final(self).spec_position() == end
                &&& final(self).spec_stop() == old(self).spec_stop()
                &&& final(self).spec_iterations() == old(self).spec_iterations()
            },
    {
        if self.position >= self.stop {
            return None;
        }
        let end = if count >= self.stop - self.position {
            self.stop
        } else {
            self.position + count
        };
        let mut window = PrimeGenerator {
            position: self.position,
            stop: end,
            iterations: self.iterations,
        };
        let mut found: Vec<u64> = Vec::new();
        loop
            invariant
                window.stop == end,
                window.iterations == self.iterations,
                window.position <= end,
                generated_between(self.position, end, self.iterations) == found@
                    + generated_between(window.position, end, self.iterations),
            ensures
                generated_between(self.position, end, self.iterations) == found@,
            decreases end - window.position,
        {
            let ghost before = window.position;
            proof {
                lemma_generated_between_first(before, end, self.iterations);
                lemma_first_from_in_range(before, end, self.iterations);
            }
            match window.next() {
                Some(q) => {
                    proof {
                        assert(found@.push(q) + generated_between(
                            window.position,
                            end,
                            self.iterations,
                        ) =~= found@ + seq![q].add(
                            generated_between(window.position, end, self.iterations),
                        ));
                    }
                    found.push(q);
                },
                None => {
                    proof {
                        assert(found@ + Seq::<u64>::empty() =~= found@);
                    }
                    break ;
                },
            }
        }
        self.position = end;
        Some(found)
    }
}

} // verus!
