//! The radix-2 Cooley-Tukey transform: values meet two by two, in the order
//! of their reversed indices first and then over blocks of twice the length,
//! until one block holds them all. The arithmetic is handed in; wherever it
//! is exact, what comes out is the discrete Fourier transform.

use vstd::arithmetic::power2::{lemma2_to64, lemma_pow2_pos, lemma_pow2_unfold, pow2};
use vstd::prelude::*;

verus! {

/// A number below `2^bits` with its bits in the opposite order.
pub open spec fn reversed(i: nat, bits: nat) -> nat
    decreases bits,
{
    if bits == 0 {
        0
    } else {
        (i % 2) * pow2((bits - 1) as nat) + reversed(i / 2, (bits - 1) as nat)
    }
}

/// The values, each at the place of its index with the bits reversed.
pub open spec fn permuted<C>(values: Seq<C>, bits: nat) -> Seq<C> {
    Seq::new(values.len(), |p: int| values[reversed(p as nat, bits) as int])
}

/// A number with its bits reversed has no more bits.
pub proof fn law_reversing_stays_in_range(i: nat, bits: nat)
    ensures
        reversed(i, bits) < pow2(bits),
    decreases bits,
{
    lemma_pow2_pos(bits);
    if bits > 0 {
        let b = (bits - 1) as nat;
        lemma_pow2_unfold(bits);
        law_reversing_stays_in_range(i / 2, b);
        if i % 2 == 0 {
            assert(0 * pow2(b) == 0);
        } else {
            assert(1 * pow2(b) == pow2(b));
        }
    }
}

/// Bits reversed by their highest: what the definition says by their lowest.
proof fn lemma_reversed_by_the_top(i: nat, bits: nat)
    requires
        bits > 0,
        i < pow2(bits),
    ensures
        reversed(i, bits) == 2 * reversed(i % pow2((bits - 1) as nat), (bits - 1) as nat) + i
            / pow2((bits - 1) as nat),
    decreases bits,
{
    let b = (bits - 1) as nat;
    lemma_pow2_unfold(bits);
    lemma_pow2_pos(b);
    if b == 0 {
        lemma2_to64();
        assert(i % 2 == i);
        assert((i % 2) * 1 == i);
        assert(reversed(i / 2, 0) == 0);
        assert(reversed(i % 1, 0) == 0);
        assert(i / 1 == i);
    } else {
        let c = (b - 1) as nat;
        lemma_pow2_unfold(b);
        lemma_pow2_pos(c);
        let half = pow2(b);
        let quarter = pow2(c);
        lemma_reversed_by_the_top(i / 2, b);
        assert(half == 2 * quarter);
        // The halves of i above and below its top bit.
        assert((i / 2) / quarter == i / half && (i / 2) % quarter == (i % half) / 2 && (i % half)
            % 2 == i % 2) by (nonlinear_arith)
            requires
                half == 2 * quarter,
                quarter > 0,
                i < 2 * half,
        {
            let top = i / half;
            let rest = i % half;
            assert(i == top * half + rest);
            assert(top * half == 2 * (top * quarter));
            assert(i / 2 == top * quarter + rest / 2);
            assert(rest / 2 < quarter);
            vstd::arithmetic::div_mod::lemma_fundamental_div_mod_converse(
                (i / 2) as int,
                quarter as int,
                top as int,
                (rest / 2) as int,
            );
        }
        let low = i % half;
        assert(reversed(low, b) == (low % 2) * quarter + reversed(low / 2, c));
        assert(reversed(i / 2, b) == 2 * reversed((i / 2) % quarter, c) + (i / 2) / quarter);
        assert((i % 2) * half == 2 * ((i % 2) * quarter)) by (nonlinear_arith)
            requires
                half == 2 * quarter,
        ;
    }
}

/// Reversing the bits twice gives the number back, so the permutation undoes
/// itself.
pub proof fn law_reversing_twice_is_nothing(i: nat, bits: nat)
    requires
        i < pow2(bits),
    ensures
        reversed(reversed(i, bits), bits) == i,
    decreases bits,
{
    if bits == 0 {
        lemma2_to64();
    } else {
        let b = (bits - 1) as nat;
        lemma_pow2_unfold(bits);
        lemma_pow2_pos(b);
        let half = pow2(b);
        let rest = reversed(i / 2, b);
        law_reversing_stays_in_range(i / 2, b);
        law_reversing_stays_in_range(i, bits);
        law_reversing_twice_is_nothing(i / 2, b);
        let r = reversed(i, bits);
        assert(r == (i % 2) * half + rest);
        vstd::arithmetic::div_mod::lemma_fundamental_div_mod_converse(
            r as int,
            half as int,
            (i % 2) as int,
            rest as int,
        );
        lemma_reversed_by_the_top(r, bits);
    }
}

/// The index after `i` with its bits reversed, from that of `i`: one is added
/// at the top bit and carried downward.
fn next_reversed(j: usize, n: usize, Ghost(i): Ghost<nat>, Ghost(bits): Ghost<nat>) -> (next: usize)
    requires
        n == pow2(bits),
        j == reversed(i, bits),
        i + 1 < n,
    ensures
        next == reversed(i + 1, bits),
{
    let mut j: usize = j;
    let mut bit: usize = n / 2;
    let ghost mut q = i;
    let ghost mut r = bits;
    proof {
        lemma2_to64();
        if bits > 0 {
            lemma_pow2_unfold(bits);
        }
        law_reversing_stays_in_range(i, bits);
    }
    while j >= bit
        invariant
            r >= 1,
            bit == pow2((r - 1) as nat),
            q + 1 < pow2(r),
            j == reversed(q, r),
            reversed(i + 1, bits) == reversed(q + 1, r),
        decreases r,
    {
        proof {
            let s = (r - 1) as nat;
            lemma_pow2_unfold(r);
            lemma_pow2_pos(s);
            law_reversing_stays_in_range(q / 2, s);
            if q % 2 == 0 {
                assert(0 * pow2(s) == 0);
            } else {
                assert(1 * pow2(s) == pow2(s));
                assert((q + 1) % 2 == 0);
                assert((q + 1) / 2 == q / 2 + 1);
                assert(0 * pow2(s) == 0);
            }
            if s == 0 {
                lemma2_to64();
            } else {
                lemma_pow2_unfold(s);
            }
            q = q / 2;
            r = s;
        }
        j = j - bit;
        bit = bit / 2;
    }
    proof {
        let s = (r - 1) as nat;
        lemma_pow2_pos(s);
        if q % 2 == 1 {
            assert(1 * pow2(s) == pow2(s));
        }
        assert(0 * pow2(s) == 0);
        assert(1 * pow2(s) == pow2(s));
        assert((q + 1) % 2 == 1);
        assert((q + 1) / 2 == q / 2);
        law_reversing_stays_in_range(i + 1, bits);
    }
    j + bit
}

/// Puts each value at the place of its index with the bits reversed.
fn permute<C: Copy>(values: &mut Vec<C>, Ghost(bits): Ghost<nat>)
    requires
        old(values)@.len() == pow2(bits),
    ensures
        final(values)@ == permuted(old(values)@, bits),
{
    let n: usize = values.len();
    let mut j: usize = 0;
    let mut i: usize = 1;
    proof {
        lemma_pow2_pos(bits);
        lemma_reversed_zero(bits);
        assert forall|p: int|
            0 <= p < n && reversed(p as nat, bits) < 1 implies #[trigger] values@[p]
            == values@[0] by {
            law_reversing_twice_is_nothing(p as nat, bits);
        }
    }
    while i < n
        invariant
            1 <= i <= n,
            n == pow2(bits),
            values@.len() == n,
            old(values)@.len() == n,
            j == reversed((i - 1) as nat, bits),
            forall|p: int|
                0 <= p < n ==> #[trigger] values@[p] == if p < i || reversed(p as nat, bits) < i {
                    old(values)@[reversed(p as nat, bits) as int]
                } else {
                    old(values)@[p]
                },
        decreases n - i,
    {
        j = next_reversed(j, n, Ghost((i - 1) as nat), Ghost(bits));
        proof {
            law_reversing_stays_in_range(i as nat, bits);
            law_reversing_twice_is_nothing(i as nat, bits);
        }
        let ghost before = values@;
        if i < j {
            let low = values[i];
            let high = values[j];
            values.set(i, high);
            values.set(j, low);
        }
        proof {
            assert forall|p: int| 0 <= p < n implies #[trigger] values@[p] == if p < i + 1
                || reversed(p as nat, bits) < i + 1 {
                old(values)@[reversed(p as nat, bits) as int]
            } else {
                old(values)@[p]
            } by {
                law_reversing_stays_in_range(p as nat, bits);
                law_reversing_twice_is_nothing(p as nat, bits);
                assert(before[p] == if p < i || reversed(p as nat, bits) < i {
                    old(values)@[reversed(p as nat, bits) as int]
                } else {
                    old(values)@[p]
                });
                if p == i {
                    assert(before[j as int] == if j < i || i < i {
                        old(values)@[i as int]
                    } else {
                        old(values)@[j as int]
                    });
                } else if p == j {
                    assert(before[i as int] == if j < i {
                        old(values)@[j as int]
                    } else {
                        old(values)@[i as int]
                    });
                } else if reversed(p as nat, bits) == i {
                    assert(p == j);
                }
            }
        }
        i = i + 1;
    }
    assert(values@ =~= permuted(old(values)@, bits));
}

proof fn lemma_reversed_zero(bits: nat)
    ensures
        reversed(0, bits) == 0,
    decreases bits,
{
    if bits > 0 {
        lemma_reversed_zero((bits - 1) as nat);
        assert(0 * pow2((bits - 1) as nat) == 0);
    }
}

/// Whether `turns` are the factors of one stage over blocks of `len`: the
/// first is `one`, and each is the one before it turned by the stage's step.
pub open spec fn turning<W, S: Fn(usize) -> W, N: Fn(W, W) -> W>(
    turns: Seq<W>,
    len: usize,
    one: W,
    step: S,
    turn: N,
) -> bool {
    &&& turns.len() == len / 2
    &&& turns[0] == one
    &&& exists|by: W|
        {
            &&& #[trigger] call_ensures(step, (len,), by)
            &&& forall|k: int|
                0 < k < turns.len() ==> call_ensures(
                    turn,
                    (turns[k - 1], by),
                    #[trigger] turns[k],
                )
        }
}

/// Whether the two values `half` apart at `start + k` went through a
/// butterfly.
pub open spec fn crossed<C, W, B: Fn(C, C, W) -> (C, C)>(
    before: Seq<C>,
    after: Seq<C>,
    turns: Seq<W>,
    start: int,
    k: int,
    butterfly: B,
) -> bool {
    let (a, b) = (start + k, start + k + turns.len());
    call_ensures(butterfly, (before[a], before[b], turns[k]), (after[a], after[b]))
}

/// Whether one stage leads from `before` to `after`: in every block of `len`,
/// each value of the lower half met the one at the same place of the upper.
pub open spec fn staged<C, W, B: Fn(C, C, W) -> (C, C)>(
    before: Seq<C>,
    after: Seq<C>,
    turns: Seq<W>,
    len: usize,
    butterfly: B,
) -> bool {
    &&& after.len() == before.len()
    &&& forall|start: int, k: int|
        0 <= start < before.len() && start % (len as int) == 0 && 0 <= k < turns.len()
            ==> #[trigger] crossed(before, after, turns, start, k, butterfly)
}

/// One stage of the transform.
fn stage<C: Copy, W: Copy, B: Fn(C, C, W) -> (C, C)>(
    values: &mut Vec<C>,
    turns: &Vec<W>,
    len: usize,
    butterfly: &B,
)
    requires
        len > 0,
        len % 2 == 0,
        old(values)@.len() % len as nat == 0,
        turns@.len() == len / 2,
        forall|a: C, b: C, w: W| call_requires(*butterfly, (a, b, w)),
    ensures
        staged(old(values)@, final(values)@, turns@, len, *butterfly),
{
    let n: usize = values.len();
    let half: usize = len / 2;
    let mut start: usize = 0;
    let ghost before = values@;
    while start < n
        invariant
            start <= n,
            start % len == 0,
            n % len == 0,
            len > 0,
            half + half == len,
            turns@.len() == half,
            values@.len() == n,
            before.len() == n,
            forall|a: C, b: C, w: W| call_requires(*butterfly, (a, b, w)),
            forall|p: int| start <= p < n ==> values@[p] == before[p],
            forall|s: int, k: int|
                0 <= s < start && s % (len as int) == 0 && 0 <= k < half ==> #[trigger] crossed(
                    before,
                    values@,
                    turns@,
                    s,
                    k,
                    *butterfly,
                ),
        decreases n - start,
    {
        proof {
            lemma_block_fits(start as int, n as int, len as int);
        }
        let mut k: usize = 0;
        while k < half
            invariant
                k <= half,
                start + len <= n,
                start % len == 0,
                len > 0,
                half + half == len,
                turns@.len() == half,
                values@.len() == n,
                before.len() == n,
                forall|a: C, b: C, w: W| call_requires(*butterfly, (a, b, w)),
                forall|p: int|
                    start + k <= p < start + half || start + half + k <= p < n ==> values@[p]
                        == before[p],
                forall|s: int, m: int|
                    ((0 <= s < start && 0 <= m < half) || (s == start && 0 <= m < k)) && s % (
                    len as int) == 0 ==> #[trigger] crossed(
                        before,
                        values@,
                        turns@,
                        s,
                        m,
                        *butterfly,
                    ),
            decreases half - k,
        {
            let a: usize = start + k;
            let b: usize = start + k + half;
            let ghost was = values@;
            let (low, high) = butterfly(values[a], values[b], turns[k]);
            values.set(a, low);
            values.set(b, high);
            proof {
                assert forall|s: int, m: int|
                    ((0 <= s < start && 0 <= m < half) || (s == start && 0 <= m < k + 1)) && s % (
                    len as int) == 0 implies #[trigger] crossed(
                    before,
                    values@,
                    turns@,
                    s,
                    m,
                    *butterfly,
                ) by {
                    if s == start && m == k {
                        assert(crossed(before, values@, turns@, s, m, *butterfly));
                    } else {
                        assert(crossed(before, was, turns@, s, m, *butterfly));
                        if s < start {
                            lemma_block_fits(s, start as int, len as int);
                        }
                    }
                }
            }
            k = k + 1;
        }
        proof {
            let was = start as int;
            assert forall|s: int, m: int|
                0 <= s < start + len && s % (len as int) == 0 && 0 <= m < half implies #[trigger] crossed(
                before,
                values@,
                turns@,
                s,
                m,
                *butterfly,
            ) by {
                if s > was {
                    lemma_block_fits(was, s, len as int);
                }
            }
            vstd::arithmetic::div_mod::lemma_mod_add_multiples_vanish(was, len as int);
        }
        start = start + len;
    }
}

/// Two multiples of `len` that differ are at least `len` apart.
proof fn lemma_block_fits(a: int, b: int, len: int)
    requires
        0 <= a < b,
        len > 0,
        a % len == 0,
        b % len == 0,
    ensures
        a + len <= b,
{
    vstd::arithmetic::div_mod::lemma_fundamental_div_mod(a, len);
    vstd::arithmetic::div_mod::lemma_fundamental_div_mod(b, len);
    assert(a + len <= b) by (nonlinear_arith)
        requires
            a == len * (a / len),
            b == len * (b / len),
            a < b,
            len > 0,
    ;
}

/// The factors of one stage.
fn turns_of<W: Copy, S: Fn(usize) -> W, N: Fn(W, W) -> W>(
    len: usize,
    one: W,
    step: &S,
    turn: &N,
) -> (turns: Vec<W>)
    requires
        len >= 2,
        call_requires(*step, (len,)),
        forall|w: W, by: W| call_requires(*turn, (w, by)),
    ensures
        turning(turns@, len, one, *step, *turn),
{
    let by = step(len);
    let mut turns: Vec<W> = Vec::new();
    let mut w = one;
    turns.push(w);
    let half: usize = len / 2;
    let mut k: usize = 1;
    while k < half
        invariant
            1 <= k <= half,
            turns@.len() == k,
            turns@[0] == one,
            turns@[k - 1] == w,
            forall|w: W, by: W| call_requires(*turn, (w, by)),
            forall|m: int|
                0 < m < k ==> call_ensures(*turn, (turns@[m - 1], by), #[trigger] turns@[m]),
        decreases half - k,
    {
        w = turn(w, by);
        turns.push(w);
        k = k + 1;
    }
    turns
}

/// Whether `states` are what a transform goes through: the values in the
/// order of their reversed indices, and then one stage after another over
/// blocks of twice the length.
pub open spec fn unfolds<
    C,
    W,
    S: Fn(usize) -> W,
    N: Fn(W, W) -> W,
    B: Fn(C, C, W) -> (C, C),
>(states: Seq<Seq<C>>, values: Seq<C>, bits: nat, one: W, step: S, turn: N, butterfly: B) -> bool {
    &&& states.len() > 0
    &&& states[0] == permuted(values, bits)
    &&& forall|s: int|
        0 < s < states.len() ==> follows(
            states[s - 1],
            #[trigger] states[s],
            pow2(s as nat) as usize,
            one,
            step,
            turn,
            butterfly,
        )
}

/// Whether one stage over blocks of `len` leads from `before` to `after`.
pub open spec fn follows<
    C,
    W,
    S: Fn(usize) -> W,
    N: Fn(W, W) -> W,
    B: Fn(C, C, W) -> (C, C),
>(before: Seq<C>, after: Seq<C>, len: usize, one: W, step: S, turn: N, butterfly: B) -> bool {
    exists|turns: Seq<W>|
        #[trigger] turning(turns, len, one, step, turn) && staged(
            before,
            after,
            turns,
            len,
            butterfly,
        )
}

/// Whether `result` is the radix-2 transform of a power of two of values.
pub open spec fn transforms<
    C,
    W,
    S: Fn(usize) -> W,
    N: Fn(W, W) -> W,
    B: Fn(C, C, W) -> (C, C),
>(values: Seq<C>, result: Seq<C>, one: W, step: S, turn: N, butterfly: B) -> bool {
    exists|states: Seq<Seq<C>>, bits: nat|
        {
            &&& values.len() == pow2(bits)
            &&& states.len() == bits + 1
            &&& states.last() == result
            &&& #[trigger] unfolds(states, values, bits, one, step, turn, butterfly)
        }
}

/// An iterative radix-2 Cooley-Tukey transform, in place, over a power of two
/// of values. `step` is the angle a stage turns by, `turn` applies it to a
/// factor that begins as `one`, and `butterfly` is what two values that meet
/// under a factor become.
pub fn fft<
    C: Copy,
    W: Copy,
    S: Fn(usize) -> W,
    N: Fn(W, W) -> W,
    B: Fn(C, C, W) -> (C, C),
>(values: &mut Vec<C>, one: W, step: &S, turn: &N, butterfly: &B)
    requires
        exists|bits: nat| old(values)@.len() == #[trigger] pow2(bits),
        forall|len: usize| call_requires(*step, (len,)),
        forall|w: W, by: W| call_requires(*turn, (w, by)),
        forall|a: C, b: C, w: W| call_requires(*butterfly, (a, b, w)),
    ensures
        transforms(old(values)@, final(values)@, one, *step, *turn, *butterfly),
        final(values)@.len() == old(values)@.len(),
{
    let n: usize = values.len();
    let ghost bits = choose|bits: nat| n == #[trigger] pow2(bits);
    permute(values, Ghost(bits));
    let mut half: usize = 1;
    let ghost mut done: nat = 0;
    let ghost mut states: Seq<Seq<C>> = seq![values@];
    proof {
        lemma2_to64();
        lemma_pow2_pos(bits);
    }
    while half < n
        invariant
            n == pow2(bits),
            half == pow2(done),
            done <= bits,
            values@.len() == n,
            old(values)@.len() == n,
            states.len() == done + 1,
            states.last() == values@,
            unfolds(states, old(values)@, bits, one, *step, *turn, *butterfly),
            forall|len: usize| call_requires(*step, (len,)),
            forall|w: W, by: W| call_requires(*turn, (w, by)),
            forall|a: C, b: C, w: W| call_requires(*butterfly, (a, b, w)),
        decreases n - half,
    {
        proof {
            lemma_pow2_pos(done);
            lemma_pow2_unfold(done + 1);
            lemma_divides(done + 1, bits);
        }
        let len: usize = 2 * half;
        let turns = turns_of(len, one, step, turn);
        let ghost before = values@;
        stage(values, &turns, len, butterfly);
        proof {
            done = done + 1;
            let was = states;
            states = states.push(values@);
            assert(follows(before, values@, len, one, *step, *turn, *butterfly));
            assert forall|s: int| 0 < s < states.len() implies follows(
                states[s - 1],
                #[trigger] states[s],
                pow2(s as nat) as usize,
                one,
                *step,
                *turn,
                *butterfly,
            ) by {
                if s < was.len() {
                    assert(was[s] == states[s]);
                }
            }
        }
        half = len;
    }
    proof {
        if done < bits {
            vstd::arithmetic::power2::lemma_pow2_strictly_increases(done, bits);
        }
        assert(unfolds(states, old(values)@, bits, one, *step, *turn, *butterfly));
    }
}

/// A power of two divides every higher one.
proof fn lemma_divides(a: nat, b: nat)
    ensures
        pow2(a) < 2 * pow2(b) ==> a <= b && pow2(b) % pow2(a) == 0 && pow2(a) <= pow2(b),
{
    lemma_pow2_pos(a);
    if a <= b {
        vstd::arithmetic::power2::lemma_pow2_adds(a, (b - a) as nat);
        vstd::arithmetic::div_mod::lemma_mod_multiples_basic(
            pow2((b - a) as nat) as int,
            pow2(a) as int,
        );
        assert(pow2((b - a) as nat) * pow2(a) == pow2(a) * pow2((b - a) as nat)) by (nonlinear_arith);
        if a < b {
            vstd::arithmetic::power2::lemma_pow2_strictly_increases(a, b);
        }
    } else {
        lemma_pow2_unfold(b + 1);
        if b + 1 < a {
            vstd::arithmetic::power2::lemma_pow2_strictly_increases(b + 1, a);
        }
    }
}

/// Arithmetic on some kind of number.
#[verifier::reject_recursive_types(R)]
pub struct Arithmetic<R> {
    pub zero: R,
    pub one: R,
    pub sum: spec_fn(R, R) -> R,
    pub product: spec_fn(R, R) -> R,
    pub negative: spec_fn(R) -> R,
}

/// The order of the two does not matter.
#[verifier::opaque]
pub open spec fn commutes<R>(op: spec_fn(R, R) -> R) -> bool {
    forall|a: R, b: R| #[trigger] op(a, b) == op(b, a)
}

/// Of three, it does not matter which two come first.
#[verifier::opaque]
pub open spec fn associates<R>(op: spec_fn(R, R) -> R) -> bool {
    forall|a: R, b: R, c: R| #[trigger] op(op(a, b), c) == op(a, op(b, c))
}

/// Some number changes no other.
#[verifier::opaque]
pub open spec fn leaves_alone<R>(op: spec_fn(R, R) -> R, idle: R) -> bool {
    forall|a: R| #[trigger] op(a, idle) == a
}

impl<R> Arithmetic<R> {
    /// A number and its negative are nothing.
    #[verifier::opaque]
    pub open spec fn cancels(self) -> bool {
        forall|a: R| (self.sum)(a, #[trigger] (self.negative)(a)) == self.zero
    }

    /// A product with a sum is the sum of the products.
    #[verifier::opaque]
    pub open spec fn distributes(self) -> bool {
        forall|a: R, b: R, c: R| #[trigger]
            (self.product)(a, (self.sum)(b, c)) == (self.sum)(
                (self.product)(a, b),
                (self.product)(a, c),
            )
    }

    /// Whether the arithmetic is exact: sums and products are those of a
    /// commutative ring.
    pub open spec fn exact(self) -> bool {
        &&& commutes(self.sum)
        &&& associates(self.sum)
        &&& leaves_alone(self.sum, self.zero)
        &&& self.cancels()
        &&& commutes(self.product)
        &&& associates(self.product)
        &&& leaves_alone(self.product, self.one)
        &&& self.distributes()
    }

    /// A number times itself, so many times.
    pub open spec fn power(self, w: R, n: nat) -> R
        decreases n,
    {
        if n == 0 {
            self.one
        } else {
            (self.product)(self.power(w, (n - 1) as nat), w)
        }
    }

    /// The first `n` terms of bin `k` of a discrete Fourier transform.
    pub open spec fn bin(self, values: Seq<R>, w: R, k: nat, n: nat) -> R
        decreases n,
    {
        if n == 0 {
            self.zero
        } else {
            (self.sum)(
                self.bin(values, w, k, (n - 1) as nat),
                (self.product)(values[n - 1], self.power(w, ((n - 1) * k) as nat)),
            )
        }
    }

    /// Bin `k` of the discrete Fourier transform of the values, where `w` is
    /// a root of one: each value times the root to the power of its place
    /// times the bin's.
    pub open spec fn fourier(self, values: Seq<R>, w: R, k: nat) -> R {
        self.bin(values, w, k, values.len())
    }

    proof fn add_swap(self, a: R, b: R)
        requires
            self.exact(),
        ensures
            (self.sum)(a, b) == (self.sum)(b, a),
    {
        reveal(commutes);
    }

    proof fn add_regroup(self, a: R, b: R, c: R)
        requires
            self.exact(),
        ensures
            (self.sum)((self.sum)(a, b), c) == (self.sum)(a, (self.sum)(b, c)),
    {
        reveal(associates);
    }

    proof fn mul_swap(self, a: R, b: R)
        requires
            self.exact(),
        ensures
            (self.product)(a, b) == (self.product)(b, a),
    {
        reveal(commutes);
    }

    proof fn mul_regroup(self, a: R, b: R, c: R)
        requires
            self.exact(),
        ensures
            (self.product)((self.product)(a, b), c) == (self.product)(a, (self.product)(b, c)),
    {
        reveal(associates);
    }

    proof fn spread_out(self, a: R, b: R, c: R)
        requires
            self.exact(),
        ensures
            (self.product)(a, (self.sum)(b, c)) == (self.sum)(
                (self.product)(a, b),
                (self.product)(a, c),
            ),
    {
        reveal(Arithmetic::distributes);
    }

    proof fn neutral(self, a: R)
        requires
            self.exact(),
        ensures
            (self.sum)(a, self.zero) == a,
            (self.sum)(self.zero, a) == a,
            (self.sum)(a, (self.negative)(a)) == self.zero,
            (self.product)(a, self.one) == a,
            (self.product)(self.one, a) == a,
    {
        reveal(leaves_alone);
        reveal(Arithmetic::cancels);
        self.add_swap(a, self.zero);
        self.mul_swap(a, self.one);
    }

    /// What a number and another add up to nothing is its negative.
    proof fn only_negative(self, a: R, b: R)
        requires
            self.exact(),
            (self.sum)(a, b) == self.zero,
        ensures
            b == (self.negative)(a),
    {
        let n = (self.negative)(a);
        self.neutral(a);
        self.neutral(b);
        self.neutral(n);
        self.add_regroup(n, a, b);
        self.add_swap(a, n);
    }

    proof fn times_zero(self, a: R)
        requires
            self.exact(),
        ensures
            (self.product)(a, self.zero) == self.zero,
    {
        let z = (self.product)(a, self.zero);
        self.neutral(self.zero);
        self.spread_out(a, self.zero, self.zero);
        // z == z + z, so z == 0.
        self.neutral(z);
        self.add_regroup(z, z, (self.negative)(z));
    }

    /// A product with a negative is the negative of the product.
    proof fn times_negative(self, a: R, b: R)
        requires
            self.exact(),
        ensures
            (self.product)((self.negative)(a), b) == (self.negative)((self.product)(a, b)),
    {
        let n = (self.negative)(a);
        self.neutral(a);
        self.spread_out(b, a, n);
        self.times_zero(b);
        self.mul_swap(b, a);
        self.mul_swap(b, n);
        self.only_negative((self.product)(a, b), (self.product)(n, b));
    }

    proof fn power_adds(self, w: R, a: nat, b: nat)
        requires
            self.exact(),
        ensures
            self.power(w, a + b) == (self.product)(self.power(w, a), self.power(w, b)),
        decreases b,
    {
        if b == 0 {
            self.neutral(self.power(w, a));
        } else {
            let c = (b - 1) as nat;
            self.power_adds(w, a, c);
            assert((a + b - 1) as nat == a + c);
            self.mul_regroup(self.power(w, a), self.power(w, c), w);
        }
    }

    proof fn power_multiplies(self, w: R, a: nat, b: nat)
        requires
            self.exact(),
        ensures
            self.power(self.power(w, a), b) == self.power(w, a * b),
        decreases b,
    {
        if b == 0 {
            assert(a * b == 0) by (nonlinear_arith)
                requires
                    b == 0,
            ;
        } else {
            let c = (b - 1) as nat;
            self.power_multiplies(w, a, c);
            assert(a * b == a * c + a) by (nonlinear_arith)
                requires
                    b == c + 1,
            ;
            self.power_adds(w, a * c, a);
        }
    }

    proof fn power_of_one(self, n: nat)
        requires
            self.exact(),
        ensures
            self.power(self.one, n) == self.one,
        decreases n,
    {
        if n > 0 {
            self.power_of_one((n - 1) as nat);
            self.neutral(self.one);
        }
    }
}

/// The values at even places.
pub open spec fn evens<R>(values: Seq<R>) -> Seq<R> {
    Seq::new(values.len() / 2, |i: int| values[2 * i])
}

/// The values at odd places.
pub open spec fn odds<R>(values: Seq<R>) -> Seq<R> {
    Seq::new(values.len() / 2, |i: int| values[2 * i + 1])
}

/// A bin is its even half and its odd half under one more factor.
proof fn lemma_halves<R>(ring: Arithmetic<R>, values: Seq<R>, w: R, k: nat, n: nat)
    requires
        ring.exact(),
        2 * n <= values.len(),
    ensures
        ring.bin(values, w, k, 2 * n) == (ring.sum)(
            ring.bin(evens(values), ring.power(w, 2), k, n),
            (ring.product)(
                ring.power(w, k),
                ring.bin(odds(values), ring.power(w, 2), k, n),
            ),
        ),
    decreases n,
{
    let v = ring.power(w, 2);
    let f = ring.power(w, k);
    if n == 0 {
        ring.times_zero(f);
        ring.neutral(ring.zero);
    } else {
        let m = (n - 1) as nat;
        lemma_halves(ring, values, w, k, m);
        let (even, odd) = (ring.bin(evens(values), v, k, m), ring.bin(odds(values), v, k, m));
        let p = ring.power(v, m * k);
        let (a, b) = (values[(2 * m) as int], values[(2 * m + 1) as int]);
        // The factors of the two values.
        ring.power_multiplies(w, 2, m * k);
        assert((2 * m) * k == 2 * (m * k)) by (nonlinear_arith);
        assert((2 * m + 1) * k == 2 * (m * k) + k) by (nonlinear_arith);
        ring.power_adds(w, 2 * (m * k), k);
        let last_even = (ring.product)(a, p);
        let last_odd = (ring.product)(b, p);
        let far = (ring.product)(b, ring.power(w, (2 * m + 1) * k));
        assert(far == (ring.product)(f, last_odd)) by {
            ring.mul_regroup(b, p, f);
            ring.mul_swap(last_odd, f);
        }
        // The sums, regrouped.
        let part = (ring.product)(f, odd);
        assert(ring.bin(values, w, k, 2 * n) == (ring.sum)(
            (ring.sum)((ring.sum)(even, part), last_even),
            far,
        )) by {
            assert(ring.bin(values, w, k, (2 * m + 1) as nat) == (ring.sum)(
                ring.bin(values, w, k, 2 * m),
                (ring.product)(a, ring.power(w, (2 * m) * k)),
            ));
            assert(2 * n - 1 == 2 * m + 1);
        }
        ring.add_regroup(even, part, last_even);
        ring.add_swap(part, last_even);
        ring.add_regroup(even, last_even, part);
        ring.add_regroup((ring.sum)(even, last_even), part, far);
        ring.spread_out(f, odd, last_odd);
        assert(evens(values)[m as int] == a);
        assert(odds(values)[m as int] == b);
    }
}

/// A bin as many bins later as there are values is the same bin.
proof fn lemma_comes_round<R>(ring: Arithmetic<R>, values: Seq<R>, v: R, k: nat, h: nat, n: nat)
    requires
        ring.exact(),
        ring.power(v, h) == ring.one,
    ensures
        ring.bin(values, v, k + h, n) == ring.bin(values, v, k, n),
    decreases n,
{
    if n > 0 {
        let m = (n - 1) as nat;
        lemma_comes_round(ring, values, v, k, h, m);
        assert(m * (k + h) == m * k + h * m) by (nonlinear_arith);
        ring.power_adds(v, m * k, h * m);
        ring.power_multiplies(v, h, m);
        ring.power_of_one(m);
        ring.neutral(ring.power(v, m * k));
    }
}

/// The two bins that one butterfly makes of two.
proof fn lemma_butterfly<R>(ring: Arithmetic<R>, values: Seq<R>, w: R, k: nat, h: nat)
    requires
        ring.exact(),
        values.len() == 2 * h,
        ring.power(w, h) == (ring.negative)(ring.one),
        k < h,
    ensures
        ({
            let v = ring.power(w, 2);
            let (e, o) = (ring.fourier(evens(values), v, k), ring.fourier(odds(values), v, k));
            let turned = (ring.product)(o, ring.power(w, k));
            &&& ring.fourier(values, w, k) == (ring.sum)(e, turned)
            &&& ring.fourier(values, w, k + h) == (ring.sum)(e, (ring.negative)(turned))
        }),
{
    let v = ring.power(w, 2);
    let (e, o) = (ring.fourier(evens(values), v, k), ring.fourier(odds(values), v, k));
    let f = ring.power(w, k);
    lemma_halves(ring, values, w, k, h);
    ring.mul_swap(o, f);
    // Half way round is the negative.
    lemma_halves(ring, values, w, k + h, h);
    let minus = (ring.negative)(ring.one);
    assert(ring.power(v, h) == ring.one) by {
        ring.power_multiplies(w, 2, h);
        ring.power_multiplies(w, h, 2);
        assert(2 * h == h * 2);
        assert(ring.power(minus, 2) == (ring.product)(ring.power(minus, 1), minus));
        assert(ring.power(minus, 1) == (ring.product)(ring.power(minus, 0), minus));
        ring.neutral(minus);
        ring.times_negative(ring.one, minus);
        ring.neutral(ring.one);
        ring.add_swap(ring.one, minus);
        ring.only_negative(minus, ring.one);
    }
    lemma_comes_round(ring, evens(values), v, k, h, h);
    lemma_comes_round(ring, odds(values), v, k, h, h);
    ring.power_adds(w, k, h);
    assert((ring.product)(f, minus) == (ring.negative)(f)) by {
        ring.mul_swap(f, minus);
        ring.times_negative(ring.one, f);
        ring.neutral(f);
    }
    ring.times_negative(f, o);
}

/// Whether what a transform is handed computes in some arithmetic: a stage's
/// step is a root, a turn multiplies by it, and a butterfly adds and
/// subtracts the product of the second value and the factor.
pub open spec fn computes<
    R,
    S: Fn(usize) -> R,
    N: Fn(R, R) -> R,
    B: Fn(R, R, R) -> (R, R),
>(ring: Arithmetic<R>, root: spec_fn(nat) -> R, step: S, turn: N, butterfly: B) -> bool {
    &&& forall|len: usize, by: R| #[trigger]
        call_ensures(step, (len,), by) ==> by == root(len as nat)
    &&& forall|w: R, by: R, next: R| #[trigger]
        call_ensures(turn, (w, by), next) ==> next == (ring.product)(w, by)
    &&& forall|a: R, b: R, w: R, out: (R, R)| #[trigger]
        call_ensures(butterfly, (a, b, w), out) ==> out.0 == (ring.sum)(a, (ring.product)(b, w))
            && out.1 == (ring.sum)(a, (ring.negative)((ring.product)(b, w)))
}

/// Whether a root for blocks of `2^m` is one: half way round it is minus one,
/// and squared it is the root for blocks of half that length.
pub open spec fn is_root<R>(ring: Arithmetic<R>, root: spec_fn(nat) -> R, m: nat) -> bool {
    &&& ring.power(root(pow2(m)), pow2((m - 1) as nat)) == (ring.negative)(ring.one)
    &&& m > 1 ==> ring.power(root(pow2(m)), 2) == root(pow2((m - 1) as nat))
}

proof fn lemma_turns<R, S: Fn(usize) -> R, N: Fn(R, R) -> R, B: Fn(R, R, R) -> (R, R)>(
    ring: Arithmetic<R>,
    root: spec_fn(nat) -> R,
    turns: Seq<R>,
    len: usize,
    step: S,
    turn: N,
    butterfly: B,
    k: nat,
)
    requires
        computes(ring, root, step, turn, butterfly),
        turning(turns, len, ring.one, step, turn),
        k < turns.len(),
    ensures
        turns[k as int] == ring.power(root(len as nat), k),
    decreases k,
{
    if k > 0 {
        let m = (k - 1) as nat;
        lemma_turns(ring, root, turns, len, step, turn, butterfly, m);
        let by = choose|by: R|
            {
                &&& #[trigger] call_ensures(step, (len,), by)
                &&& forall|k: int|
                    0 < k < turns.len() ==> call_ensures(
                        turn,
                        (turns[k - 1], by),
                        #[trigger] turns[k],
                    )
            };
        assert(call_ensures(turn, (turns[k - 1], by), turns[k as int]));
    }
}

/// The discrete Fourier transform of the values, bin by bin.
pub open spec fn spectrum<R>(ring: Arithmetic<R>, values: Seq<R>, w: R) -> Seq<R> {
    Seq::new(values.len(), |k: int| ring.fourier(values, w, k as nat))
}

/// A block in the order of its reversed indices is its even values in that
/// order, and then its odd ones.
proof fn lemma_parts<R>(block: Seq<R>, m: nat)
    requires
        m > 0,
        block.len() == pow2(m),
    ensures
        permuted(block, m) == permuted(evens(block), (m - 1) as nat) + permuted(
            odds(block),
            (m - 1) as nat,
        ),
{
    let l = (m - 1) as nat;
    let h = pow2(l);
    lemma_pow2_unfold(m);
    lemma_pow2_pos(l);
    let joined = permuted(evens(block), l) + permuted(odds(block), l);
    assert forall|p: int| 0 <= p < block.len() implies permuted(block, m)[p] == joined[p] by {
        lemma_reversed_by_the_top(p as nat, m);
        if p < h {
            law_reversing_stays_in_range(p as nat, l);
            vstd::arithmetic::div_mod::lemma_small_mod(p as nat, h);
            vstd::arithmetic::div_mod::lemma_basic_div(p, h as int);
        } else {
            let q = p - h;
            law_reversing_stays_in_range(q as nat, l);
            vstd::arithmetic::div_mod::lemma_fundamental_div_mod_converse(p, h as int, 1, q);
        }
    }
    assert(permuted(block, m) =~= joined);
}

/// A butterfly joins a bin of each half's spectrum to two of the block's own.
proof fn lemma_joins_two<R, S: Fn(usize) -> R, N: Fn(R, R) -> R, B: Fn(R, R, R) -> (R, R)>(
    ring: Arithmetic<R>,
    root: spec_fn(nat) -> R,
    before: Seq<R>,
    after: Seq<R>,
    turns: Seq<R>,
    block: Seq<R>,
    at: int,
    j: nat,
    len: usize,
    h: nat,
    step: S,
    turn: N,
    butterfly: B,
)
    requires
        ring.exact(),
        computes(ring, root, step, turn, butterfly),
        turning(turns, len, ring.one, step, turn),
        crossed(before, after, turns, at, j as int, butterfly),
        j < h,
        len == 2 * h,
        block.len() == len,
        ring.power(root(len as nat), h) == (ring.negative)(ring.one),
        before[at + j] == ring.fourier(evens(block), ring.power(root(len as nat), 2), j),
        before[at + j + h] == ring.fourier(odds(block), ring.power(root(len as nat), 2), j),
    ensures
        after[at + j] == ring.fourier(block, root(len as nat), j),
        after[at + j + h] == ring.fourier(block, root(len as nat), j + h),
{
    lemma_turns(ring, root, turns, len, step, turn, butterfly, j);
    lemma_butterfly(ring, block, root(len as nat), j, h);
    let (x, y) = (at + j, at + j + turns.len());
    assert(call_ensures(
        butterfly,
        (before[x], before[y], turns[j as int]),
        (after[x], after[y]),
    ));
}

/// A stretch that holds every bin of a spectrum, half by half, is the
/// spectrum.
proof fn lemma_bins_are_spectrum<R>(
    ring: Arithmetic<R>,
    after: Seq<R>,
    block: Seq<R>,
    w: R,
    at: int,
    h: nat,
)
    requires
        block.len() == 2 * h,
        0 <= at,
        at + 2 * h <= after.len(),
        forall|j: int|
            0 <= j < h ==> (#[trigger] after[at + j]) == ring.fourier(block, w, j as nat)
                && after[at + j + h] == ring.fourier(block, w, (j + h) as nat),
    ensures
        after.subrange(at, at + 2 * h) == spectrum(ring, block, w),
{
    let (got, want) = (after.subrange(at, at + 2 * h), spectrum(ring, block, w));
    assert forall|k: int| 0 <= k < 2 * h implies got[k] == want[k] by {
        if k < h {
            assert(after[at + k] == ring.fourier(block, w, k as nat));
        } else {
            let j = k - h;
            assert(after[at + j] == ring.fourier(block, w, j as nat));
            assert(at + j + h == at + k);
        }
    }
    assert(got =~= want);
}

/// A stage joins the spectra of a block's halves to the block's own.
proof fn lemma_joins<R, S: Fn(usize) -> R, N: Fn(R, R) -> R, B: Fn(R, R, R) -> (R, R)>(
    ring: Arithmetic<R>,
    root: spec_fn(nat) -> R,
    before: Seq<R>,
    after: Seq<R>,
    block: Seq<R>,
    at: int,
    len: usize,
    h: nat,
    step: S,
    turn: N,
    butterfly: B,
)
    requires
        ring.exact(),
        computes(ring, root, step, turn, butterfly),
        follows(before, after, len, ring.one, step, turn, butterfly),
        0 < h,
        len == 2 * h,
        block.len() == len,
        0 <= at,
        at + len <= before.len(),
        at % (len as int) == 0,
        ring.power(root(len as nat), h) == (ring.negative)(ring.one),
        before.subrange(at, at + h) == spectrum(
            ring,
            evens(block),
            ring.power(root(len as nat), 2),
        ),
        before.subrange(at + h, at + len) == spectrum(
            ring,
            odds(block),
            ring.power(root(len as nat), 2),
        ),
    ensures
        after.len() == before.len(),
        after.subrange(at, at + len) == spectrum(ring, block, root(len as nat)),
{
    let w = root(len as nat);
    let v = ring.power(w, 2);
    let turns = choose|turns: Seq<R>|
        #[trigger] turning(turns, len, ring.one, step, turn) && staged(
            before,
            after,
            turns,
            len,
            butterfly,
        );
    assert forall|j: int| 0 <= j < h implies (#[trigger] after[at + j]) == ring.fourier(
        block,
        w,
        j as nat,
    ) && after[at + j + h] == ring.fourier(block, w, (j + h) as nat) by {
        assert(crossed(before, after, turns, at, j, butterfly));
        assert(before[at + j] == before.subrange(at, at + h)[j]);
        assert(before[at + j + h] == before.subrange(at + h, at + len)[j]);
        assert(spectrum(ring, evens(block), v)[j] == ring.fourier(evens(block), v, j as nat));
        assert(spectrum(ring, odds(block), v)[j] == ring.fourier(odds(block), v, j as nat));
        lemma_joins_two(
            ring,
            root,
            before,
            after,
            turns,
            block,
            at,
            j as nat,
            len,
            h,
            step,
            turn,
            butterfly,
        );
    }
    lemma_bins_are_spectrum(ring, after, block, w, at, h);
}

/// After `m` stages each block of `2^m` holds the spectrum of the values it
/// began as.
proof fn lemma_block<R, S: Fn(usize) -> R, N: Fn(R, R) -> R, B: Fn(R, R, R) -> (R, R)>(
    ring: Arithmetic<R>,
    root: spec_fn(nat) -> R,
    states: Seq<Seq<R>>,
    values: Seq<R>,
    bits: nat,
    step: S,
    turn: N,
    butterfly: B,
    m: nat,
    at: int,
    block: Seq<R>,
    w: R,
)
    requires
        ring.exact(),
        computes(ring, root, step, turn, butterfly),
        forall|m: nat| 1 <= m <= bits ==> #[trigger] is_root(ring, root, m),
        unfolds(states, values, bits, ring.one, step, turn, butterfly),
        states.len() == bits + 1,
        values.len() == pow2(bits),
        values.len() <= usize::MAX,
        m <= bits,
        block.len() == pow2(m),
        0 <= at,
        at + block.len() <= values.len(),
        at % (pow2(m) as int) == 0,
        states[0].subrange(at, at + block.len()) == permuted(block, m),
        m > 0 ==> w == root(pow2(m)),
    ensures
        states[m as int].len() == values.len(),
        states[m as int].subrange(at, at + block.len()) == spectrum(ring, block, w),
    decreases m,
{
    if m == 0 {
        lemma2_to64();
        let (got, want) = (states[0].subrange(at, at + 1), spectrum(ring, block, w));
        assert(got[0] == want[0]) by {
            assert(reversed(0, 0) == 0);
            assert(permuted(block, 0)[0] == block[0]);
            assert(ring.bin(block, w, 0, 0) == ring.zero);
            assert(ring.power(w, 0) == ring.one);
            ring.neutral(block[0]);
        }
        assert(got =~= want);
    } else {
        let l = (m - 1) as nat;
        let h = pow2(l);
        lemma_pow2_unfold(m);
        lemma_pow2_pos(l);
        let (even, odd) = (evens(block), odds(block));
        let v = ring.power(w, 2);
        assert(is_root(ring, root, m));
        lemma_parts(block, m);
        let began = states[0].subrange(at, at + block.len());
        assert(states[0].subrange(at, at + h) =~= began.subrange(0, h as int));
        assert(states[0].subrange(at, at + h) =~= permuted(even, l));
        assert(states[0].subrange(at + h, at + h + h) =~= began.subrange(h as int, 2 * h as int));
        assert(states[0].subrange(at + h, at + h + h) =~= permuted(odd, l));
        lemma_multiple_of_half(at, h as int);
        lemma_block(
            ring, root, states, values, bits, step, turn, butterfly, l, at, even, v,
        );
        lemma_block(
            ring, root, states, values, bits, step, turn, butterfly, l, at + h, odd, v,
        );
        assert(pow2(m) <= values.len());
        assert(follows(
            states[m - 1],
            states[m as int],
            pow2(m) as usize,
            ring.one,
            step,
            turn,
            butterfly,
        ));
        lemma_joins(
            ring,
            root,
            states[m - 1],
            states[m as int],
            block,
            at,
            pow2(m) as usize,
            h,
            step,
            turn,
            butterfly,
        );
    }
}

proof fn lemma_multiple_of_half(at: int, h: int)
    requires
        h > 0,
        at % (2 * h) == 0,
    ensures
        at % h == 0,
        (at + h) % h == 0,
{
    vstd::arithmetic::div_mod::lemma_fundamental_div_mod(at, 2 * h);
    let q = at / (2 * h);
    assert(at == (2 * q) * h) by (nonlinear_arith)
        requires
            at == (2 * h) * q,
    ;
    vstd::arithmetic::div_mod::lemma_mod_multiples_basic(2 * q, h);
    assert(at + h == (2 * q + 1) * h) by (nonlinear_arith)
        requires
            at == (2 * q) * h,
    ;
    vstd::arithmetic::div_mod::lemma_mod_multiples_basic(2 * q + 1, h);
}

/// Wherever the arithmetic is exact, what the transform computes is the
/// discrete Fourier transform: each result is the sum of every value times
/// the root to the power of the value's place times the result's.
pub proof fn law_the_transform_is_fouriers<
    R,
    S: Fn(usize) -> R,
    N: Fn(R, R) -> R,
    B: Fn(R, R, R) -> (R, R),
>(
    ring: Arithmetic<R>,
    root: spec_fn(nat) -> R,
    values: Seq<R>,
    result: Seq<R>,
    step: S,
    turn: N,
    butterfly: B,
)
    requires
        ring.exact(),
        computes(ring, root, step, turn, butterfly),
        forall|m: nat|
            m > 0 && pow2(m) <= values.len() ==> #[trigger] is_root(ring, root, m),
        values.len() <= usize::MAX,
        transforms(values, result, ring.one, step, turn, butterfly),
    ensures
        result == spectrum(ring, values, root(values.len())),
{
    let (states, bits) = choose|states: Seq<Seq<R>>, bits: nat|
        {
            &&& values.len() == pow2(bits)
            &&& states.len() == bits + 1
            &&& states.last() == result
            &&& #[trigger] unfolds(states, values, bits, ring.one, step, turn, butterfly)
        };
    let n = values.len() as int;
    lemma_pow2_pos(bits);
    assert(states[0].subrange(0, n) =~= permuted(values, bits));
    vstd::arithmetic::div_mod::lemma_small_mod(0, pow2(bits));
    assert forall|m: nat| 1 <= m <= bits implies #[trigger] is_root(ring, root, m) by {
        if m < bits {
            vstd::arithmetic::power2::lemma_pow2_strictly_increases(m, bits);
        }
    }
    lemma_block(
        ring,
        root,
        states,
        values,
        bits,
        step,
        turn,
        butterfly,
        bits,
        0,
        values,
        root(pow2(bits)),
    );
    assert(result.subrange(0, n) =~= result);
}

} // verus!
