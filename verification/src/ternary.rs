//! Base-3 indexing of the prefix accumulators of the inner sumcheck: one
//! ternary digit per prefix coordinate, and the extension of a table over
//! `{0,1}^k` to the grid `{∞,0,1}^k`.

use vstd::arithmetic::power2::*;
use vstd::prelude::*;

verus! {

/// `3^e`.
pub open spec fn pow3_spec(e: nat) -> nat
    decreases e,
{
    if e == 0 {
        1
    } else {
        3 * pow3_spec((e - 1) as nat)
    }
}

/// Ternary digit `i` of `beta`.
pub open spec fn ternary_digit(beta: nat, i: nat) -> nat {
    (beta / pow3_spec(i)) % 3
}

proof fn lemma_pow3_positive(e: nat)
    ensures
        pow3_spec(e) >= 1,
    decreases e,
{
    if e > 0 {
        lemma_pow3_positive((e - 1) as nat);
    }
}

/// `3^exponent`.
pub fn pow3(exponent: usize) -> (result: usize)
    requires
        pow3_spec(exponent as nat) <= usize::MAX,
    ensures
        result == pow3_spec(exponent as nat),
{
    let mut result = 1usize;
    let mut index = 0usize;
    while index < exponent
        invariant
            index <= exponent,
            result == pow3_spec(index as nat),
            pow3_spec(exponent as nat) <= usize::MAX,
        decreases exponent - index,
    {
        proof {
            lemma_pow3_monotone((index + 1) as nat, exponent as nat);
        }
        result = result * 3;
        index = index + 1;
    }
    result
}

proof fn lemma_pow3_monotone(a: nat, b: nat)
    requires
        a <= b,
    ensures
        pow3_spec(a) <= pow3_spec(b),
    decreases b,
{
    if a < b {
        lemma_pow3_monotone(a, (b - 1) as nat);
        lemma_pow3_positive((b - 1) as nat);
    }
}

/// Whether every ternary digit of `beta` at positions `start..variables`
/// is nonzero.
pub fn ternary_suffix_is_binary(beta: usize, start: usize, variables: usize) -> (result: bool)
    requires
        pow3_spec(start as nat) <= usize::MAX,
    ensures
        result == (forall|i: nat| start <= i < variables ==> #[trigger] ternary_digit(
            beta as nat,
            i,
        ) != 0),
{
    proof {
        lemma_pow3_positive(start as nat);
    }
    let mut remaining = beta / pow3(start);
    let mut position = start;
    while position < variables
        invariant
            start <= position,
            position <= variables || position == start,
            remaining as nat == beta as nat / pow3_spec(position as nat),
            forall|i: nat| start <= i < position ==> #[trigger] ternary_digit(beta as nat, i) != 0,
        decreases variables - position,
    {
        if remaining % 3 == 0 {
            assert(ternary_digit(beta as nat, position as nat) == 0);
            return false;
        }
        proof {
            lemma_pow3_positive(position as nat);
            vstd::arithmetic::div_mod::lemma_div_denominator(
                beta as int,
                pow3_spec(position as nat) as int,
                3,
            );
            assert(pow3_spec((position + 1) as nat) == pow3_spec(position as nat) * 3);
        }
        remaining = remaining / 3;
        position = position + 1;
    }
    true
}

/// One coordinate of the extension: digit 0 is the point `∞` (the
/// coordinate's coefficient `b - a`), digit 1 the point 0 (`a`), digit 2
/// the point 1 (`b`), for the values `a` at 0 and `b` at 1.
pub open spec fn combine(digit: int, a: int, b: int) -> int {
    if digit == 0 {
        b - a
    } else if digit == 1 {
        a
    } else {
        b
    }
}

/// The extension of a table `v` over `{0,1}^k` — coordinate `i` is bit
/// `i` of the index — to `{∞,0,1}^k`, indexed by `k` ternary digits with
/// the lowest coordinate least significant. It splits on the highest
/// coordinate: the lower and upper halves of `v` fix it to 0 and 1.
pub open spec fn extension(v: Seq<i64>, k: nat) -> Seq<int>
    decreases k,
{
    if k == 0 {
        Seq::new(v.len(), |i: int| v[i] as int)
    } else {
        let half = pow2((k - 1) as nat) as int;
        let third = pow3_spec((k - 1) as nat) as int;
        let e0 = extension(v.subrange(0, half), (k - 1) as nat);
        let e1 = extension(v.subrange(half, 2 * half), (k - 1) as nat);
        Seq::new((3 * third) as nat, |j: int| combine(j / third, e0[j % third], e1[j % third]))
    }
}

/// Block `y` of `2^c` entries of `v`.
pub open spec fn block(v: Seq<i64>, c: nat, y: int) -> Seq<i64> {
    v.subrange(pow2(c) * y, pow2(c) * (y + 1))
}

/// After `c` axes, entry `m` of the working table is entry `m mod 3^c` of
/// the extension of block `m / 3^c` of `v`.
pub open spec fn stage_holds(buf: Seq<i64>, v: Seq<i64>, c: nat, groups: nat) -> bool {
    &&& buf.len() >= pow3_spec(c) * groups
    &&& forall|m: int|
        0 <= m < pow3_spec(c) * groups ==> #[trigger] buf[m] as int == extension(
            block(v, c, m / pow3_spec(c) as int),
            c,
        )[m % pow3_spec(c) as int]
}

/// Every entry of a table is at most `bound` in absolute value.
pub open spec fn bounded(v: Seq<i64>, bound: int) -> bool {
    forall|i: int| 0 <= i < v.len() ==> -bound <= #[trigger] v[i] <= bound
}

proof fn lemma_extension_bound(v: Seq<i64>, k: nat, bound: int, j: int)
    requires
        v.len() == pow2(k),
        bounded(v, bound),
        0 <= j < pow3_spec(k),
    ensures
        -(pow2(k) * bound) <= extension(v, k)[j] <= pow2(k) * bound,
    decreases k,
{
    lemma_pow2_pos(k);
    assert(-bound <= v[0] <= bound);
    if k == 0 {
        assert(pow2(0) == 1) by {
            lemma2_to64();
        }
        assert(extension(v, k)[j] == v[j] as int);
    } else {
        let half = pow2((k - 1) as nat) as int;
        let third = pow3_spec((k - 1) as nat) as int;
        lemma_pow2_unfold(k);
        lemma_pow2_pos((k - 1) as nat);
        lemma_pow3_positive((k - 1) as nat);
        let v0 = v.subrange(0, half);
        let v1 = v.subrange(half, 2 * half);
        assert(bounded(v0, bound)) by {
            assert forall|i: int| 0 <= i < v0.len() implies -bound <= #[trigger] v0[i] <= bound by {
                assert(v0[i] == v[i]);
            }
        }
        assert(bounded(v1, bound)) by {
            assert forall|i: int| 0 <= i < v1.len() implies -bound <= #[trigger] v1[i] <= bound by {
                assert(v1[i] == v[half + i]);
            }
        }
        vstd::arithmetic::div_mod::lemma_mod_bound(j, third);
        let i = j % third;
        lemma_extension_bound(v0, (k - 1) as nat, bound, i);
        lemma_extension_bound(v1, (k - 1) as nat, bound, i);
        let e0 = extension(v0, (k - 1) as nat);
        let e1 = extension(v1, (k - 1) as nat);
        assert(pow3_spec(k) == 3 * third);
        assert(extension(v, k)[j] == combine(j / third, e0[i], e1[i]));
        assert(pow2(k) * bound == 2 * (half * bound)) by (nonlinear_arith)
            requires
                pow2(k) == 2 * half,
        ;
        assert(0 <= half * bound) by (nonlinear_arith)
            requires
                half > 0,
                bound >= 0,
        ;
    }
}

proof fn lemma_pow3_unfold(c: nat)
    ensures
        pow3_spec(c + 1) == 3 * pow3_spec(c),
{
}

proof fn lemma_axis_step(v: Seq<i64>, c: nat, g: int, m: int)
    requires
        0 <= g,
        v.len() >= pow2(c + 1) * (g + 1),
        pow3_spec(c + 1) * g <= m < pow3_spec(c + 1) * (g + 1),
    ensures
        ({
            let s = pow3_spec(c) as int;
            let r = m % (3 * s);
            let i = r % s;
            &&& m / (3 * s) == g
            &&& 0 <= r / s < 3
            &&& extension(block(v, c + 1, g), c + 1)[r] == combine(
                r / s,
                extension(block(v, c, 2 * g), c)[i],
                extension(block(v, c, 2 * g + 1), c)[i],
            )
        }),
{
    let s = pow3_spec(c) as int;
    lemma_pow3_positive(c);
    lemma_pow3_unfold(c);
    lemma_pow2_unfold(c + 1);
    lemma_pow2_pos(c);
    let r = m - 3 * s * g;
    assert(g * (3 * s) == 3 * s * g) by (nonlinear_arith);
    assert(pow3_spec(c + 1) * (g + 1) == 3 * s * g + 3 * s) by (nonlinear_arith)
        requires
            pow3_spec(c + 1) == 3 * s,
    ;
    assert(pow3_spec(c + 1) * g == 3 * s * g) by (nonlinear_arith)
        requires
            pow3_spec(c + 1) == 3 * s,
    ;
    vstd::arithmetic::div_mod::lemma_fundamental_div_mod_converse(m, 3 * s, g, r);
    vstd::arithmetic::div_mod::lemma_fundamental_div_mod(r, s);
    vstd::arithmetic::div_mod::lemma_mod_bound(r, s);
    vstd::arithmetic::div_mod::lemma_div_pos_is_pos(r, s);
    assert(r / s < 3) by {
        vstd::arithmetic::div_mod::lemma_fundamental_div_mod_converse(3 * s, s, 3, 0);
        vstd::arithmetic::div_mod::lemma_div_by_multiple_is_strongly_ordered(r, 3 * s, 3, s);
    }
    let p = pow2(c) as int;
    let lo = pow2(c + 1) * g;
    assert(lo == p * (2 * g)) by (nonlinear_arith)
        requires
            pow2(c + 1) == 2 * p,
            lo == pow2(c + 1) * g,
    ;
    assert(p * (2 * g + 1) == lo + p) by (nonlinear_arith)
        requires
            lo == p * (2 * g),
    ;
    assert(p * (2 * g + 1 + 1) == lo + 2 * p) by (nonlinear_arith)
        requires
            lo == p * (2 * g),
    ;
    assert(pow2(c + 1) * (g + 1) == lo + 2 * p) by (nonlinear_arith)
        requires
            pow2(c + 1) == 2 * p,
            lo == pow2(c + 1) * g,
    ;
    assert(0 <= lo) by (nonlinear_arith)
        requires
            p > 0,
            g >= 0,
            lo == p * (2 * g),
    ;
    let w = block(v, c + 1, g);
    assert(w.len() == 2 * p);
    assert(w.subrange(0, p) =~= block(v, c, 2 * g));
    assert(w.subrange(p, 2 * p) =~= block(v, c, 2 * g + 1));
}

/// Output `m` of one axis with stride `s`: group `m / 3s`, digit
/// `(m mod 3s) / s` and offset `(m mod 3s) mod s`, read from the group's
/// inputs at 0 and at 1.
pub open spec fn axis_value(input: Seq<i64>, s: int, m: int) -> int {
    let g = m / (3 * s);
    let r = m % (3 * s);
    combine(r / s, input[2 * s * g + r % s] as int, input[2 * s * g + s + r % s] as int)
}

/// Writes one axis of the extension: for each of `high_groups` groups of
/// `2 · low_stride` inputs (the coordinate at 0, then at 1), the
/// `3 · low_stride` outputs at `∞`, 0 and 1.
fn extend_lsb_axis(input: &Vec<i64>, output: &mut Vec<i64>, low_stride: usize, high_groups: usize)
    requires
        low_stride > 0,
        high_groups > 0,
        3 * low_stride * high_groups <= usize::MAX,
        input.len() >= 2 * low_stride * high_groups,
        old(output).len() >= 3 * low_stride * high_groups,
        forall|g: int, i: int|
            0 <= g < high_groups && 0 <= i < low_stride ==> i64::MIN <= #[trigger] input[2
                * low_stride * g + low_stride + i] - input[2 * low_stride * g + i] <= i64::MAX,
    ensures
        final(output).len() == old(output).len(),
        forall|m: int|
            0 <= m < 3 * low_stride * high_groups ==> #[trigger] final(output)[m] as int
                == axis_value(input@, low_stride as int, m),
        forall|m: int|
            3 * low_stride * high_groups <= m < old(output).len() ==> #[trigger] final(output)[m]
                == old(output)[m],
{
    proof {
        assert(3 * low_stride <= 3 * low_stride * high_groups) by (nonlinear_arith)
            requires
                high_groups > 0,
        ;
    }
    let group = 3 * low_stride;
    let total = group * high_groups;
    for m in 0..total
        invariant
            group == 3 * low_stride,
            total == group * high_groups,
            low_stride > 0,
            input.len() >= 2 * low_stride * high_groups,
            output.len() == old(output).len(),
            output.len() >= total,
            forall|g: int, i: int|
                0 <= g < high_groups && 0 <= i < low_stride ==> i64::MIN <= #[trigger] input[2
                    * low_stride * g + low_stride + i] - input[2 * low_stride * g + i] <= i64::MAX,
            forall|k: int|
                0 <= k < m ==> #[trigger] output[k] as int == axis_value(
                    input@,
                    low_stride as int,
                    k,
                ),
            forall|k: int| total <= k < output.len() ==> #[trigger] output[k] == old(output)[k],
    {
        let g = m / group;
        let r = m % group;
        let digit = r / low_stride;
        let i = r % low_stride;
        proof {
            vstd::arithmetic::div_mod::lemma_fundamental_div_mod(m as int, group as int);
            vstd::arithmetic::div_mod::lemma_mod_bound(m as int, group as int);
            vstd::arithmetic::div_mod::lemma_mod_bound(r as int, low_stride as int);
            assert(g < high_groups) by {
                vstd::arithmetic::mul::lemma_mul_is_commutative(group as int, high_groups as int);
                vstd::arithmetic::div_mod::lemma_div_by_multiple_is_strongly_ordered(
                    m as int,
                    total as int,
                    high_groups as int,
                    group as int,
                );
                vstd::arithmetic::div_mod::lemma_fundamental_div_mod_converse(
                    total as int,
                    group as int,
                    high_groups as int,
                    0,
                );
            }
            assert(2 * low_stride * g + low_stride + i < 2 * low_stride * high_groups)
                by (nonlinear_arith)
                requires
                    g < high_groups,
                    i < low_stride,
            ;
        }
        let base = 2 * low_stride * g;
        let low = input[base + i];
        let high = input[base + low_stride + i];
        let value = if digit == 0 {
            high - low
        } else if digit == 1 {
            low
        } else {
            high
        };
        output.set(m, value);
    }
}

proof fn lemma_pow3_adds(a: nat, b: nat)
    ensures
        pow3_spec(a + b) == pow3_spec(a) * pow3_spec(b),
    decreases a,
{
    if a == 0 {
        assert(a + b == b);
        assert(pow3_spec(0) == 1);
    } else {
        let a1 = (a - 1) as nat;
        lemma_pow3_adds(a1, b);
        assert(pow3_spec(a + b) == 3 * pow3_spec(a1 + b));
        assert(pow3_spec(a) == 3 * pow3_spec(a1));
        vstd::arithmetic::mul::lemma_mul_is_associative(
            3,
            pow3_spec(a1) as int,
            pow3_spec(b) as int,
        );
        assert(pow3_spec(a) * pow3_spec(b) == 3 * (pow3_spec(a1) * pow3_spec(b)));
        assert(pow3_spec(a1 + b) == pow3_spec(a1) * pow3_spec(b));
        assert(pow3_spec(a + b) == pow3_spec(a) * pow3_spec(b));
    }
}

proof fn lemma_pow2_le_pow3(n: nat)
    ensures
        pow2(n) <= pow3_spec(n),
    decreases n,
{
    if n == 0 {
        lemma2_to64();
    } else {
        lemma_pow2_le_pow3((n - 1) as nat);
        lemma_pow2_unfold(n);
    }
}

/// The stage sizes: `3^c · 2^(k-c)` entries, at most `3^k`.
proof fn lemma_stage_len(k: nat, c: nat)
    requires
        c < k,
    ensures
        pow3_spec(c) * pow2((k - c) as nat) == 2 * (pow3_spec(c) * pow2((k - c - 1) as nat)),
        pow3_spec(c + 1) * pow2((k - c - 1) as nat) == 3 * (pow3_spec(c) * pow2(
            (k - c - 1) as nat,
        )),
        pow3_spec(c + 1) * pow2((k - c - 1) as nat) <= pow3_spec(k),
        pow2((k - c - 1) as nat) > 0,
        pow3_spec(c) > 0,
{
    lemma_pow2_unfold((k - c) as nat);
    lemma_pow2_pos((k - c - 1) as nat);
    lemma_pow3_positive(c);
    lemma_pow3_unfold(c);
    lemma_pow2_le_pow3((k - c - 1) as nat);
    lemma_pow3_adds(c + 1, (k - c - 1) as nat);
    vstd::arithmetic::mul::lemma_mul_inequality(
        pow2((k - c - 1) as nat) as int,
        pow3_spec((k - c - 1) as nat) as int,
        pow3_spec(c + 1) as int,
    );
    vstd::arithmetic::mul::lemma_mul_is_commutative(
        pow2((k - c - 1) as nat) as int,
        pow3_spec(c + 1) as int,
    );
    vstd::arithmetic::mul::lemma_mul_is_commutative(
        pow3_spec((k - c - 1) as nat) as int,
        pow3_spec(c + 1) as int,
    );
    vstd::arithmetic::mul::lemma_mul_is_associative(
        3,
        pow3_spec(c) as int,
        pow2((k - c - 1) as nat) as int,
    );
    vstd::arithmetic::mul::lemma_mul_is_associative(
        pow3_spec(c) as int,
        2,
        pow2((k - c - 1) as nat) as int,
    );
    vstd::arithmetic::mul::lemma_mul_is_commutative(pow3_spec(c) as int, 2);
    vstd::arithmetic::mul::lemma_mul_is_associative(
        2,
        pow3_spec(c) as int,
        pow2((k - c - 1) as nat) as int,
    );
}

/// Blocks of `2^c` entries of a bounded table of `2^k` entries are bounded
/// tables of `2^c` entries.
proof fn lemma_block(v: Seq<i64>, k: nat, c: nat, y: int, bound: int)
    requires
        c <= k,
        v.len() == pow2(k),
        bounded(v, bound),
        0 <= y < pow2((k - c) as nat),
    ensures
        block(v, c, y).len() == pow2(c),
        bounded(block(v, c, y), bound),
{
    lemma_pow2_adds(c, (k - c) as nat);
    lemma_pow2_pos(c);
    assert(pow2(c) * (y + 1) <= pow2(c) * pow2((k - c) as nat)) by {
        vstd::arithmetic::mul::lemma_mul_inequality(y + 1, pow2((k - c) as nat) as int, pow2(c) as int);
        vstd::arithmetic::mul::lemma_mul_is_commutative(y + 1, pow2(c) as int);
        vstd::arithmetic::mul::lemma_mul_is_commutative(pow2((k - c) as nat) as int, pow2(c) as int);
    }
    assert(pow2(c) * (y + 1) == pow2(c) * y + pow2(c)) by (nonlinear_arith);
    assert(0 <= pow2(c) * y) by (nonlinear_arith)
        requires
            y >= 0,
    ;
    let b = block(v, c, y);
    assert forall|i: int| 0 <= i < b.len() implies -bound <= #[trigger] b[i] <= bound by {
        assert(b[i] == v[pow2(c) * y + i]);
    }
}

/// Entry `m` of a stage is entry `m mod 3^c` of block `m / 3^c`, read back
/// at coordinates.
proof fn lemma_stage_entry(buf: Seq<i64>, v: Seq<i64>, c: nat, groups: nat, y: int, i: int)
    requires
        stage_holds(buf, v, c, groups),
        0 <= y < groups,
        0 <= i < pow3_spec(c),
    ensures
        0 <= pow3_spec(c) * y + i < pow3_spec(c) * groups,
        buf[pow3_spec(c) * y + i] as int == extension(block(v, c, y), c)[i],
{
    let s = pow3_spec(c) as int;
    let m = s * y + i;
    assert(0 <= m < s * groups) by (nonlinear_arith)
        requires
            0 <= y < groups,
            0 <= i < s,
            m == s * y + i,
    ;
    vstd::arithmetic::mul::lemma_mul_is_commutative(s, y);
    vstd::arithmetic::div_mod::lemma_fundamental_div_mod_converse(m, s, y, i);
    assert(buf[m] as int == extension(block(v, c, m / s), c)[m % s]);
}

/// One axis turns stage `c` into stage `c + 1`.
proof fn lemma_stage_step(
    input: Seq<i64>,
    output: Seq<i64>,
    v: Seq<i64>,
    k: nat,
    c: nat,
    bound: int,
)
    requires
        c < k,
        v.len() == pow2(k),
        bounded(v, bound),
        stage_holds(input, v, c, pow2((k - c) as nat)),
        output.len() >= pow3_spec(c + 1) * pow2((k - c - 1) as nat),
        forall|m: int|
            0 <= m < 3 * pow3_spec(c) * pow2((k - c - 1) as nat) ==> #[trigger] output[m] as int
                == axis_value(input, pow3_spec(c) as int, m),
    ensures
        stage_holds(output, v, c + 1, pow2((k - c - 1) as nat)),
{
    let s = pow3_spec(c) as int;
    let h = pow2((k - c - 1) as nat);
    lemma_stage_len(k, c);
    assert forall|m: int| 0 <= m < pow3_spec(c + 1) * h implies #[trigger] output[m] as int
        == extension(block(v, c + 1, m / pow3_spec(c + 1) as int), c + 1)[m % pow3_spec(
        c + 1,
    ) as int] by {
        let g = m / (3 * s);
        vstd::arithmetic::div_mod::lemma_fundamental_div_mod(m, 3 * s);
        vstd::arithmetic::div_mod::lemma_mod_bound(m, 3 * s);
        vstd::arithmetic::div_mod::lemma_div_pos_is_pos(m, 3 * s);
        assert(g < h) by {
            vstd::arithmetic::mul::lemma_mul_is_commutative(3 * s, h as int);
            vstd::arithmetic::div_mod::lemma_div_by_multiple_is_strongly_ordered(
                m,
                (3 * s) * h,
                h as int,
                3 * s,
            );
            vstd::arithmetic::div_mod::lemma_fundamental_div_mod_converse(
                (3 * s) * h,
                3 * s,
                h as int,
                0,
            );
        }
        assert(pow3_spec(c + 1) * g <= m < pow3_spec(c + 1) * (g + 1)) by (nonlinear_arith)
            requires
                m == (3 * s) * g + m % (3 * s),
                0 <= m % (3 * s) < 3 * s,
                pow3_spec(c + 1) == 3 * s,
        ;
        assert(v.len() >= pow2(c + 1) * (g + 1)) by {
            lemma_pow2_adds(c + 1, (k - c - 1) as nat);
            vstd::arithmetic::mul::lemma_mul_inequality(g + 1, h as int, pow2(c + 1) as int);
            vstd::arithmetic::mul::lemma_mul_is_commutative(g + 1, pow2(c + 1) as int);
            vstd::arithmetic::mul::lemma_mul_is_commutative(h as int, pow2(c + 1) as int);
        }
        lemma_axis_step(v, c, g, m);
        let r = m % (3 * s);
        let i = r % s;
        vstd::arithmetic::div_mod::lemma_mod_bound(r, s);
        lemma_pow2_unfold((k - c) as nat);
        lemma_stage_entry(input, v, c, pow2((k - c) as nat), 2 * g, i);
        lemma_stage_entry(input, v, c, pow2((k - c) as nat), 2 * g + 1, i);
        assert(s * (2 * g) + i == 2 * s * g + i) by (nonlinear_arith);
        assert(s * (2 * g + 1) + i == 2 * s * g + s + i) by (nonlinear_arith);
    }
}

/// The axis at coordinate `c` (stride `s = 3^c`, `h = 2^(k-c-1)` groups)
/// computes only differences that fit `i64`.
proof fn lemma_stage_differences(
    input: Seq<i64>,
    v: Seq<i64>,
    k: nat,
    c: nat,
    bound: int,
    s: int,
    h: int,
)
    requires
        c < k,
        v.len() == pow2(k),
        bounded(v, bound),
        bound == (i64::MAX as int) / (pow2(k) as int),
        stage_holds(input, v, c, pow2((k - c) as nat)),
        s == pow3_spec(c),
        h == pow2((k - c - 1) as nat),
    ensures
        forall|g: int, i: int|
            0 <= g < h && 0 <= i < s ==> i64::MIN <= #[trigger] input[2 * s * g + s + i] - input[2
                * s * g + i] <= i64::MAX,
{
    lemma_stage_len(k, c);
    lemma_pow2_pos(k);
    assert forall|g: int, i: int| 0 <= g < h && 0 <= i < s implies i64::MIN <= #[trigger] input[2
        * s * g + s + i] - input[2 * s * g + i] <= i64::MAX by {
        lemma_pow2_unfold((k - c) as nat);
        lemma_stage_entry(input, v, c, pow2((k - c) as nat), 2 * g, i);
        lemma_stage_entry(input, v, c, pow2((k - c) as nat), 2 * g + 1, i);
        assert(s * (2 * g) + i == 2 * s * g + i) by (nonlinear_arith);
        assert(s * (2 * g + 1) + i == 2 * s * g + s + i) by (nonlinear_arith);
        lemma_block(v, k, c, 2 * g, bound);
        lemma_block(v, k, c, 2 * g + 1, bound);
        lemma_extension_bound(block(v, c, 2 * g), c, bound, i);
        lemma_extension_bound(block(v, c, 2 * g + 1), c, bound, i);
        assert(2 * pow2(c) <= pow2(k)) by {
            lemma_pow2_unfold(c + 1);
            if c + 1 < k {
                lemma_pow2_strictly_increases(c + 1, k);
            }
        }
        assert(0 <= bound) by {
            vstd::arithmetic::div_mod::lemma_div_pos_is_pos(i64::MAX as int, pow2(k) as int);
        }
        assert(pow2(k) * bound <= i64::MAX) by {
            vstd::arithmetic::div_mod::lemma_fundamental_div_mod(i64::MAX as int, pow2(k) as int);
            vstd::arithmetic::div_mod::lemma_mod_bound(i64::MAX as int, pow2(k) as int);
        }
        assert(2 * (pow2(c) * bound) <= pow2(k) * bound) by (nonlinear_arith)
            requires
                2 * pow2(c) <= pow2(k),
                0 <= bound,
        ;
    }
}

proof fn lemma_exponent_fits(k: nat)
    requires
        pow2(k) <= usize::MAX,
    ensures
        k < usize::BITS,
{
    if k >= usize::BITS {
        if usize::BITS == 64 {
            lemma2_to64_rest();
        } else {
            lemma2_to64();
        }
        if k > usize::BITS {
            lemma_pow2_strictly_increases(usize::BITS as nat, k);
        }
    }
}

/// Extends a table over `{0,1}^k` (`k` = `prefix_vars`) to `{∞,0,1}^k`
/// one coordinate at a time, lowest first, alternating between `values`
/// and `scratch`; `values` ends holding the `3^k` extended entries and
/// `scratch` working entries. The entries must be small enough that `2^k`
/// times them fits in `i64`.
pub fn extend_lsb(values: &mut Vec<i64>, scratch: &mut Vec<i64>, prefix_vars: usize)
    requires
        pow3_spec(prefix_vars as nat) <= usize::MAX,
        old(values).len() == pow2(prefix_vars as nat),
        bounded(old(values)@, (i64::MAX as int) / (pow2(prefix_vars as nat) as int)),
    ensures
        final(values).len() == pow3_spec(prefix_vars as nat),
        forall|j: int|
            0 <= j < pow3_spec(prefix_vars as nat) ==> #[trigger] final(values)[j] as int
                == extension(old(values)@, prefix_vars as nat)[j],
{
    let ghost v = values@;
    let k = prefix_vars;
    let ghost bound = (i64::MAX as int) / (pow2(k as nat) as int);
    proof {
        lemma_pow2_pos(k as nat);
        lemma_pow2_le_pow3(k as nat);
        assert(pow2(0) == 1) by {
            lemma2_to64();
        }
        assert forall|m: int| 0 <= m < pow3_spec(0) * pow2(k as nat) implies #[trigger] values@[m]
            as int == extension(block(v, 0, m / pow3_spec(0) as int), 0)[m % pow3_spec(0) as int] by {
            assert(pow3_spec(0) == 1);
            assert(m < pow2(k as nat));
            assert(m / pow3_spec(0) as int == m && m % pow3_spec(0) as int == 0);
            assert(pow2(0) * m == m);
            assert(pow2(0) * (m + 1) == m + 1);
            assert(block(v, 0, m).len() == 1);
            assert(block(v, 0, m)[0] == v[m]);
        }
    }
    let mut current_len = values.len();
    let mut coordinate = 0usize;
    while coordinate < k
        invariant
            k == prefix_vars,
            coordinate <= k,
            pow3_spec(k as nat) <= usize::MAX,
            pow2(k as nat) <= pow3_spec(k as nat),
            v.len() == pow2(k as nat),
            bounded(v, bound),
            bound == (i64::MAX as int) / (pow2(k as nat) as int),
            current_len == pow3_spec(coordinate as nat) * pow2((k - coordinate) as nat),
            coordinate % 2 == 0 ==> values.len() == current_len && stage_holds(
                values@,
                v,
                coordinate as nat,
                pow2((k - coordinate) as nat),
            ),
            coordinate % 2 == 1 ==> scratch.len() == current_len && stage_holds(
                scratch@,
                v,
                coordinate as nat,
                pow2((k - coordinate) as nat),
            ),
        decreases k - coordinate,
    {
        let shift = k - coordinate - 1;
        proof {
            lemma_exponent_fits(k as nat);
            lemma_stage_len(k as nat, coordinate as nat);
            lemma_pow3_monotone(coordinate as nat, k as nat);
            lemma_pow2_strictly_increases(shift as nat, k as nat);
            vstd::bits::lemma_usize_pow2_no_overflow(shift as nat);
            vstd::bits::lemma_usize_shl_is_mul(1, shift);
        }
        let low_stride = pow3(coordinate);
        let high_groups = 1usize << shift;
        let next_len = current_len / 2 * 3;
        proof {
            assert(next_len == 3 * low_stride * high_groups) by {
                vstd::arithmetic::mul::lemma_mul_is_associative(
                    3,
                    low_stride as int,
                    high_groups as int,
                );
            }
            assert(current_len == 2 * low_stride * high_groups) by {
                vstd::arithmetic::mul::lemma_mul_is_associative(
                    2,
                    low_stride as int,
                    high_groups as int,
                );
            }
        }
        if coordinate % 2 == 0 {
            scratch.resize(next_len, 0);
            proof {
                lemma_stage_differences(
                    values@,
                    v,
                    k as nat,
                    coordinate as nat,
                    bound,
                    low_stride as int,
                    high_groups as int,
                );
            }
            extend_lsb_axis(values, scratch, low_stride, high_groups);
            proof {
                lemma_stage_step(values@, scratch@, v, k as nat, coordinate as nat, bound);
            }
        } else {
            values.resize(next_len, 0);
            proof {
                lemma_stage_differences(
                    scratch@,
                    v,
                    k as nat,
                    coordinate as nat,
                    bound,
                    low_stride as int,
                    high_groups as int,
                );
            }
            extend_lsb_axis(scratch, values, low_stride, high_groups);
            proof {
                lemma_stage_step(scratch@, values@, v, k as nat, coordinate as nat, bound);
            }
        }
        current_len = next_len;
        coordinate = coordinate + 1;
    }
    proof {
        assert(pow2(0) == 1) by {
            lemma2_to64();
        }
        assert(coordinate == k);
        assert((k - coordinate) as nat == 0);
        assert(current_len == pow3_spec(k as nat) * pow2(0));
        assert(current_len == pow3_spec(k as nat));
    }
    if k % 2 == 1 {
        values.clear();
        values.extend_from_slice(scratch.as_slice());
    } else {
        values.truncate(current_len);
    }
    proof {
        assert(pow2(0) == 1) by {
            lemma2_to64();
        }
        assert(block(v, k as nat, 0) =~= v);
        assert forall|j: int| 0 <= j < pow3_spec(k as nat) implies #[trigger] values@[j] as int
            == extension(v, k as nat)[j] by {
            vstd::arithmetic::div_mod::lemma_fundamental_div_mod_converse(
                j,
                pow3_spec(k as nat) as int,
                0,
                j,
            );
        }
    }
}

/// The table index of a point whose `k` ternary digits are all nonzero:
/// digit `d_i ∈ {1, 2}` is bit `d_i - 1` of coordinate `i`.
pub open spec fn binary_index(beta: nat, k: nat) -> nat
    decreases k,
{
    if k == 0 {
        0
    } else {
        let third = pow3_spec((k - 1) as nat);
        (binary_index(beta % third, (k - 1) as nat) + ((beta / third) as int - 1) * pow2(
            (k - 1) as nat,
        )) as nat
    }
}

/// Below the top digit, a point and its remainder modulo `3^(k-1)` have
/// the same ternary digits.
proof fn lemma_lower_digits(beta: nat, k: nat, i: nat)
    requires
        k > 0,
        i < k - 1,
    ensures
        ternary_digit(beta % pow3_spec((k - 1) as nat), i) == ternary_digit(beta, i),
{
    let third = pow3_spec((k - 1) as nat) as int;
    let pi = pow3_spec(i) as int;
    let rest = pow3_spec((k - 1 - i) as nat) as int;
    lemma_pow3_positive(i);
    lemma_pow3_positive((k - 1 - i) as nat);
    lemma_pow3_positive((k - 1) as nat);
    lemma_pow3_adds(i, (k - 1 - i) as nat);
    assert(third == pi * rest);
    let b = beta as int;
    let d = b / third;
    let r = b % third;
    vstd::arithmetic::div_mod::lemma_fundamental_div_mod(beta as int, third);
    vstd::arithmetic::div_mod::lemma_mod_bound(beta as int, third);
    vstd::arithmetic::div_mod::lemma_div_pos_is_pos(beta as int, third);
    // beta / 3^i = d · 3^(k-1-i) + r / 3^i
    assert(b == r + (d * rest) * pi) by (nonlinear_arith)
        requires
            b == third * d + r,
            third == pi * rest,
    ;
    vstd::arithmetic::div_mod::lemma_hoist_over_denominator(r, d * rest, pi as nat);
    // 3 divides 3^(k-1-i).
    assert(pow3_spec((k - 1 - i) as nat) == 3 * pow3_spec((k - 2 - i) as nat));
    let q = r / pi;
    let e = d * pow3_spec((k - 2 - i) as nat);
    assert(d * rest == 3 * e) by (nonlinear_arith)
        requires
            rest == 3 * pow3_spec((k - 2 - i) as nat),
            e == d * pow3_spec((k - 2 - i) as nat),
    ;
    vstd::arithmetic::div_mod::lemma_mod_multiples_vanish(e, q, 3);
    assert(b / pi == q + d * rest);
    assert((q + 3 * e) % 3 == q % 3);
}

/// On the Boolean sub-grid the extension reads the table back: a point
/// whose `k` ternary digits are all nonzero holds the table entry at
/// `binary_index`.
pub proof fn lemma_extension_on_binary_points(v: Seq<i64>, k: nat, beta: nat)
    requires
        v.len() == pow2(k),
        beta < pow3_spec(k),
        forall|i: nat| i < k ==> #[trigger] ternary_digit(beta, i) != 0,
    ensures
        binary_index(beta, k) < pow2(k),
        extension(v, k)[beta as int] == v[binary_index(beta, k) as int] as int,
    decreases k,
{
    if k == 0 {
        assert(pow2(0) == 1) by {
            lemma2_to64();
        }
        assert(beta == 0);
        assert(binary_index(beta, k) == 0);
        assert(extension(v, k)[0] == v[0] as int);
    } else {
        let third = pow3_spec((k - 1) as nat);
        let half = pow2((k - 1) as nat);
        lemma_pow3_positive((k - 1) as nat);
        lemma_pow2_unfold(k);
        lemma_pow2_pos((k - 1) as nat);
        let d = beta / third;
        let r = beta % third;
        vstd::arithmetic::div_mod::lemma_fundamental_div_mod(beta as int, third as int);
        vstd::arithmetic::div_mod::lemma_mod_bound(beta as int, third as int);
        assert(d < 3) by {
            vstd::arithmetic::div_mod::lemma_fundamental_div_mod_converse(
                (3 * third) as int,
                third as int,
                3,
                0,
            );
            vstd::arithmetic::div_mod::lemma_div_by_multiple_is_strongly_ordered(
                beta as int,
                (3 * third) as int,
                3,
                third as int,
            );
        }
        assert(ternary_digit(beta, (k - 1) as nat) == d);
        assert(d != 0);
        assert forall|i: nat| i < (k - 1) as nat implies #[trigger] ternary_digit(r, i) != 0 by {
            lemma_lower_digits(beta, k, i);
        }
        let v0 = v.subrange(0, half as int);
        let v1 = v.subrange(half as int, 2 * half as int);
        lemma_extension_on_binary_points(v0, (k - 1) as nat, r);
        lemma_extension_on_binary_points(v1, (k - 1) as nat, r);
        let b = binary_index(r, (k - 1) as nat);
        assert(binary_index(beta, k) == b + (d - 1) * half);
        assert(extension(v, k)[beta as int] == combine(
            d as int,
            extension(v0, (k - 1) as nat)[r as int],
            extension(v1, (k - 1) as nat)[r as int],
        ));
        if d == 1 {
            assert(v0[b as int] == v[b as int]);
            assert((d - 1) * half == 0) by (nonlinear_arith)
                requires
                    d == 1,
            ;
            assert(binary_index(beta, k) == b);
        } else {
            assert(v1[b as int] == v[half + b as int]);
            assert((d - 1) * half == half) by (nonlinear_arith)
                requires
                    d == 2,
            ;
            assert(binary_index(beta, k) == b + half);
        }
        assert(binary_index(beta, k) < pow2(k));
    }
}

} // verus!
