//! Integer-level relation for batched `u128 * u128 = u256` multiplication:
//! the exact native assignment, its padded layout, and the compact
//! slot-major bit witness.

use vstd::arithmetic::power2::*;
use vstd::bits::*;
use vstd::prelude::*;

verus! {

/// `2^64` as a mathematical integer.
pub open spec fn pow64() -> int {
    0x1_0000_0000_0000_0000
}

/// `2^128` as a mathematical integer.
pub open spec fn pow128() -> int {
    pow64() * pow64()
}

proof fn lemma_split_u128(x: u128)
    ensures
        x as int == (x >> 64u128) as int * pow64() + (x as u64 as u128) as int,
        (x >> 64u128) < 0x1_0000_0000_0000_0000u128,
        (x as u64 as u128) < 0x1_0000_0000_0000_0000u128,
{
    assert(x == (x >> 64u128) * 0x1_0000_0000_0000_0000u128 + (x as u64 as u128)) by (bit_vector);
    assert((x >> 64u128) < 0x1_0000_0000_0000_0000u128) by (bit_vector);
    assert((x as u64 as u128) < 0x1_0000_0000_0000_0000u128) by (bit_vector);
}

proof fn lemma_shift_parts(m: u128)
    ensures
        (m << 64u128) as int == (m as u64 as u128) as int * pow64(),
        m as int == (m >> 64u128) as int * pow64() + (m as u64 as u128) as int,
        (m >> 64u128) < 0x1_0000_0000_0000_0000u128,
{
    assert((m << 64u128) == (m as u64 as u128) * 0x1_0000_0000_0000_0000u128) by (bit_vector);
    lemma_split_u128(m);
}

proof fn lemma_or_high_carry(h: u128, c: u128)
    requires
        h < 0x1_0000_0000_0000_0000u128,
        c <= 1,
    ensures
        (h | (c << 64u128)) as int == h as int + c as int * pow64(),
{
    assert((h | (c << 64u128)) == h + c * 0x1_0000_0000_0000_0000u128) by (bit_vector)
        requires
            h < 0x1_0000_0000_0000_0000u128,
            c <= 1,
    ;
}

/// The exact 256-bit product of two 128-bit integers as `(low, high)`
/// 128-bit halves.
pub fn mul_u128_full(x: u128, y: u128) -> (product: (u128, u128))
    ensures
        product.1 as int * pow128() + product.0 as int == x as int * y as int,
{
    let x0 = x as u64 as u128;
    let x1 = x >> 64;
    let y0 = y as u64 as u128;
    let y1 = y >> 64;
    proof {
        lemma_split_u128(x);
        lemma_split_u128(y);
        assert(x0 * y0 <= 0xffff_ffff_ffff_fffe_0000_0000_0000_0001) by (nonlinear_arith)
            requires
                x0 < 0x1_0000_0000_0000_0000u128,
                y0 < 0x1_0000_0000_0000_0000u128,
        ;
        assert(x0 * y1 <= 0xffff_ffff_ffff_fffe_0000_0000_0000_0001) by (nonlinear_arith)
            requires
                x0 < 0x1_0000_0000_0000_0000u128,
                y1 < 0x1_0000_0000_0000_0000u128,
        ;
        assert(x1 * y0 <= 0xffff_ffff_ffff_fffe_0000_0000_0000_0001) by (nonlinear_arith)
            requires
                x1 < 0x1_0000_0000_0000_0000u128,
                y0 < 0x1_0000_0000_0000_0000u128,
        ;
        assert(x1 * y1 <= 0xffff_ffff_ffff_fffe_0000_0000_0000_0001) by (nonlinear_arith)
            requires
                x1 < 0x1_0000_0000_0000_0000u128,
                y1 < 0x1_0000_0000_0000_0000u128,
        ;
    }
    let p00 = x0 * y0;
    let p01 = x0 * y1;
    let p10 = x1 * y0;
    let p11 = x1 * y1;
    // Middle terms: p01 + p10 < 2^129, split around bit 64.
    let middle = p01.wrapping_add(p10);
    let middle_carry = middle < p01;
    let carry_bit: u128 = if middle_carry {
        1
    } else {
        0
    };
    proof {
        assert(middle as int + carry_bit as int * pow128() == p01 as int + p10 as int);
        lemma_shift_parts(middle);
    }
    let middle_low = middle << 64;
    let middle_high = (middle >> 64) | (carry_bit << 64);
    proof {
        lemma_or_high_carry(middle >> 64u128, carry_bit);
    }
    let low = p00.wrapping_add(middle_low);
    let low_carry: u128 = if low < p00 {
        1
    } else {
        0
    };
    proof {
        assert(low as int + low_carry as int * pow128() == p00 as int + middle_low as int);
        let xi = x as int;
        let yi = y as int;
        let a0 = x0 as int;
        let a1 = x1 as int;
        let b0 = y0 as int;
        let b1 = y1 as int;
        assert(xi * yi == (a1 * pow64() + a0) * (b1 * pow64() + b0));
        assert((a1 * pow64() + a0) * (b1 * pow64() + b0) == a1 * b1 * pow128() + (a0 * b1 + a1
            * b0) * pow64() + a0 * b0) by (nonlinear_arith);
        let mh = (middle >> 64u128) as int;
        let ml = (middle as u64 as u128) as int;
        let c = carry_bit as int;
        assert((a0 * b1 + a1 * b0) * pow64() == (mh + c * pow64()) * pow128() + ml * pow64())
            by (nonlinear_arith)
            requires
                a0 * b1 + a1 * b0 == middle as int + c * pow128(),
                middle as int == mh * pow64() + ml,
        ;
        // The full product is below 2^256, so the high half cannot overflow.
        assert(xi * yi <= (pow128() - 1) * (pow128() - 1)) by (nonlinear_arith)
            requires
                0 <= xi < pow128(),
                0 <= yi < pow128(),
        ;
        assert((p11 as int + middle_high as int + low_carry as int) < pow128()) by (nonlinear_arith)
            requires
                xi * yi == (p11 as int + middle_high as int + low_carry as int) * pow128()
                    + low as int,
                xi * yi <= (pow128() - 1) * (pow128() - 1),
                0 <= low,
        ;
    }
    // p11 + middle_high + carry < 2^128: the full product is below 2^256.
    let high = p11 + middle_high + low_carry;
    (low, high)
}


/// Committed little-endian bits of each operand.
pub const U128_MUL_OPERAND_BITS: usize = 128;
/// Committed little-endian bits of each product.
pub const U128_MUL_PRODUCT_BITS: usize = 256;
/// First bit slot occupied by the left operand.
pub const U128_MUL_X_SLOT_START: usize = 0;
/// First bit slot occupied by the right operand.
pub const U128_MUL_Y_SLOT_START: usize = 128;
/// First bit slot occupied by the product.
pub const U128_MUL_Z_SLOT_START: usize = 256;
/// Total number of bit slots committed for each multiplication.
pub const U128_MUL_BIT_SLOTS: usize = 512;
/// `log2` of [`U128_MUL_BIT_SLOTS`]: the physical slot coordinates on the
/// folded row axis.
pub const U128_MUL_SLOT_VARS: usize = 9;
/// Words of 64 committed bits per gate.
pub const WORDS_PER_GATE: usize = 8;
/// Four assignment blocks: `[e0 | x | y | z]`.
pub const U128_MUL_ASSIGNMENT_BLOCKS: usize = 4;
/// Smallest gate capacity of any layout.
pub const MIN_CAPACITY: usize = 256;

/// Failures while constructing the u128 multiplication relation.
#[derive(Clone, Copy, Debug, PartialEq, Eq, Structural)]
pub enum U128MulError {
    /// A multiplication batch must contain at least one live row.
    EmptyBatch,
    /// The padded assignment or committed-bit domain does not fit in `usize`.
    DomainTooLarge,
}

/// F2Z tensor geometry: `2^t` packed rows of `word_bits`-bit cells by
/// `2^s` columns.
#[derive(Clone, Copy, Debug, PartialEq, Eq, Structural)]
pub struct IntEvalParams {
    /// Row variables.
    pub t: usize,
    /// Column variables.
    pub s: usize,
    /// Bits per cell.
    pub word_bits: usize,
}

impl IntEvalParams {
    /// Number of rows, `2^t`.
    pub fn rows(&self) -> (rows: usize)
        requires
            self.t < usize::BITS,
        ensures
            rows == pow2(self.t as nat),
    {
        proof {
            lemma_usize_pow2_no_overflow(self.t as nat);
            lemma_usize_shl_is_mul(1, self.t);
        }
        1usize << self.t
    }

    /// Number of columns, `2^s`.
    pub fn cols(&self) -> (cols: usize)
        requires
            self.s < usize::BITS,
        ensures
            cols == pow2(self.s as nat),
    {
        proof {
            lemma_usize_pow2_no_overflow(self.s as nat);
            lemma_usize_shl_is_mul(1, self.s);
        }
        1usize << self.s
    }

    /// Number of cells, `2^(t + s)`.
    pub fn cells(&self) -> (cells: usize)
        requires
            self.t + self.s < usize::BITS,
        ensures
            cells == pow2((self.t + self.s) as nat),
    {
        let shift = self.t + self.s;
        proof {
            lemma_usize_pow2_no_overflow(shift as nat);
            lemma_usize_shl_is_mul(1, shift);
        }
        1usize << shift
    }
}

/// Every power of two at least `target` is too large for a layout: its
/// 512 committed bit slots per gate overflow `usize`.
pub open spec fn capacity_too_large(target: nat) -> bool {
    forall|k: nat| #[trigger] pow2(k) >= target ==> pow2(k) * U128_MUL_BIT_SLOTS > usize::MAX
}

/// The least gate count a layout for `multiplications` rows must hold:
/// the row count, but at least `MIN_CAPACITY`.
pub open spec fn capacity_target(multiplications: nat) -> nat {
    if multiplications > MIN_CAPACITY {
        multiplications
    } else {
        MIN_CAPACITY as nat
    }
}

/// Mathematical content of a layout.
pub struct LayoutModel {
    pub multiplications: nat,
    pub capacity: nat,
    pub gate_vars: nat,
}

impl LayoutModel {
    /// A well-formed layout: a positive row count padded to the least power
    /// of two at least `max(256, rows)`, whose committed bits fit `usize`.
    pub open spec fn wf(self) -> bool {
        &&& 0 < self.multiplications <= self.capacity
        &&& self.capacity == pow2(self.gate_vars)
        &&& capacity_target(self.multiplications) <= self.capacity
        &&& (self.gate_vars == 0 || pow2((self.gate_vars - 1) as nat) < capacity_target(
            self.multiplications,
        ))
        &&& self.capacity * U128_MUL_BIT_SLOTS <= usize::MAX
    }
}

/// Shared shape of the integer assignment and its compact F2Z bit witness.
#[derive(Clone, Copy, Debug, PartialEq, Eq, Structural)]
pub struct U128MulLayout {
    multiplications: usize,
    capacity: usize,
    gate_vars: usize,
}

impl View for U128MulLayout {
    type V = LayoutModel;

    closed spec fn view(&self) -> LayoutModel {
        LayoutModel {
            multiplications: self.multiplications as nat,
            capacity: self.capacity as nat,
            gate_vars: self.gate_vars as nat,
        }
    }
}

proof fn lemma_minimal_power(k: nat, g: nat, target: nat)
    requires
        pow2(k) >= target,
        g == 0 || pow2((g - 1) as nat) < target,
    ensures
        pow2(k) >= pow2(g),
{
    if k < g {
        if k < (g - 1) as nat {
            lemma_pow2_strictly_increases(k, (g - 1) as nat);
        }
    } else if k > g {
        lemma_pow2_strictly_increases(g, k);
    }
}

impl U128MulLayout {
    #[verifier::type_invariant]
    closed spec fn well_formed(self) -> bool {
        self@.wf()
    }

    /// Creates a layout for `multiplications` live rows.
    ///
    /// Its capacity is the least power of two at or above both 256 and
    /// `multiplications`.
    pub fn new(multiplications: usize) -> (result: Result<Self, U128MulError>)
        ensures
            multiplications == 0 ==> result == Err::<Self, U128MulError>(U128MulError::EmptyBatch),
            multiplications > 0 && capacity_too_large(capacity_target(multiplications as nat))
                ==> result == Err::<Self, U128MulError>(U128MulError::DomainTooLarge),
            multiplications > 0 && !capacity_too_large(capacity_target(multiplications as nat))
                ==> result is Ok,
            result matches Ok(layout) ==> layout@.wf() && layout@.multiplications
                == multiplications,
    {
        if multiplications == 0 {
            return Err(U128MulError::EmptyBatch);
        }
        let target = if multiplications > MIN_CAPACITY {
            multiplications
        } else {
            MIN_CAPACITY
        };
        let mut capacity: usize = 1;
        let mut gate_vars: usize = 0;
        proof {
            lemma2_to64();
        }
        while capacity < target
            invariant
                capacity == pow2(gate_vars as nat),
                capacity >= 1,
                gate_vars == 0 || pow2((gate_vars - 1) as nat) < target,
                target == capacity_target(multiplications as nat),
                gate_vars < usize::BITS,
            decreases usize::BITS - gate_vars,
        {
            if capacity > usize::MAX / 2 {
                proof {
                    assert forall|k: nat| #[trigger] pow2(k) >= target implies pow2(k)
                        * U128_MUL_BIT_SLOTS > usize::MAX by {
                        lemma_pow2_unfold((gate_vars + 1) as nat);
                        if k <= gate_vars {
                            if k < gate_vars {
                                lemma_pow2_strictly_increases(k, gate_vars as nat);
                            }
                        } else {
                            if k > gate_vars + 1 {
                                lemma_pow2_strictly_increases((gate_vars + 1) as nat, k);
                            }
                        }
                    }
                }
                return Err(U128MulError::DomainTooLarge);
            }
            proof {
                lemma_pow2_unfold((gate_vars + 1) as nat);
                if gate_vars + 1 >= usize::BITS {
                    lemma_usize_pow2_no_overflow((usize::BITS - 1) as nat);
                    lemma_pow2_unfold(usize::BITS as nat);
                    if gate_vars + 1 > usize::BITS {
                        lemma_pow2_strictly_increases(usize::BITS as nat, (gate_vars + 1) as nat);
                    }
                    assert(usize::BITS == 32 || usize::BITS == 64);
                    assert(pow2(32) == 0x1_0000_0000) by {
                        lemma2_to64();
                    }
                    assert(pow2(64) == 0x1_0000_0000_0000_0000) by {
                        lemma2_to64_rest();
                    }
                }
            }
            capacity = capacity * 2;
            gate_vars = gate_vars + 1;
        }
        if capacity > usize::MAX / U128_MUL_BIT_SLOTS {
            proof {
                assert forall|k: nat| #[trigger] pow2(k) >= target implies pow2(k)
                    * U128_MUL_BIT_SLOTS > usize::MAX by {
                    lemma_minimal_power(k, gate_vars as nat, target as nat);
                }
            }
            return Err(U128MulError::DomainTooLarge);
        }
        proof {
            if capacity_too_large(target as nat) {
                assert(pow2(gate_vars as nat) >= target);
            }
        }
        Ok(U128MulLayout { multiplications, capacity, gate_vars })
    }

    /// Number of live multiplication rows.
    pub fn multiplications(&self) -> (r: usize)
        ensures
            r == self@.multiplications,
            self@.wf(),
    {
        proof {
            use_type_invariant(self);
        }
        self.multiplications
    }

    /// Power-of-two gate capacity, including zero-padded gates.
    pub fn capacity(&self) -> (r: usize)
        ensures
            r == self@.capacity,
            self@.wf(),
    {
        proof {
            use_type_invariant(self);
        }
        self.capacity
    }

    /// Number of variables selecting one padded gate.
    pub fn gate_vars(&self) -> (r: usize)
        ensures
            r == self@.gate_vars,
            self@.wf(),
    {
        proof {
            use_type_invariant(self);
        }
        self.gate_vars
    }

    /// Assignment length: four blocks of `capacity` integers.
    pub fn assignment_len(&self) -> (r: usize)
        ensures
            r == U128_MUL_ASSIGNMENT_BLOCKS * self@.capacity,
    {
        proof {
            use_type_invariant(self);
        }
        U128_MUL_ASSIGNMENT_BLOCKS * self.capacity
    }

    /// Number of variables in the assignment MLE.
    pub fn assignment_vars(&self) -> (r: usize)
        ensures
            r == self@.gate_vars + 2,
    {
        proof {
            use_type_invariant(self);
            lemma_layout_gate_vars_small(self@);
        }
        self.gate_vars + 2
    }

    /// F2Z shape for the slot-major 128/128/256-bit witness: the low
    /// `s = floor(g/2)` gate coordinates become columns; the remaining gate
    /// coordinates and the nine slot coordinates become row variables.
    pub fn f2z_params(&self) -> (params: IntEvalParams)
        ensures
            params.s == self@.gate_vars / 2,
            params.t == U128_MUL_SLOT_VARS + self@.gate_vars - self@.gate_vars / 2,
            params.word_bits == 1,
            pow2(params.t as nat) * pow2(params.s as nat) == U128_MUL_BIT_SLOTS * self@.capacity,
            params.t + params.s < usize::BITS,
    {
        proof {
            use_type_invariant(self);
            lemma_layout_gate_vars_small(self@);
        }
        let s = self.gate_vars / 2;
        let params = IntEvalParams { t: U128_MUL_SLOT_VARS + self.gate_vars - s, s, word_bits: 1 };
        proof {
            lemma_pow2_adds(params.t as nat, params.s as nat);
            lemma_pow2_adds(9, self.gate_vars as nat);
            assert(pow2(9) == 512) by {
                lemma2_to64();
            }
        }
        params
    }

    /// Maps `(bit_slot, gate)` to the F2Z row-major cell `(b, c)`, with
    /// `b * 2^s + c == bit_slot * capacity + gate`.
    pub fn f2z_cell(&self, bit_slot: usize, gate: usize) -> (cell: Option<(usize, usize)>)
        ensures
            cell is None <==> (bit_slot >= U128_MUL_BIT_SLOTS || gate >= self@.capacity),
            cell matches Some(bc) ==> f2z_cell_of(self@, bit_slot as nat, gate as nat) == bc,
    {
        proof {
            use_type_invariant(self);
            lemma_layout_gate_vars_small(self@);
        }
        if bit_slot >= U128_MUL_BIT_SLOTS || gate >= self.capacity {
            return None;
        }
        let s = self.gate_vars / 2;
        let h = self.gate_vars - s;
        proof {
            lemma_usize_pow2_no_overflow(s as nat);
            lemma_usize_shl_is_mul(1, s);
        }
        let column_mask = (1usize << s) - 1;
        let gate_high = gate >> s;
        let shifted = bit_slot << h;
        let b = shifted | gate_high;
        let c = gate & column_mask;
        proof {
            lemma_cell_arith(self@, bit_slot, gate, s, h, column_mask, gate_high, shifted, b, c);
        }
        Some((b, c))
    }
}

/// The F2Z cell of committed bit `bit_slot` of gate `gate`: row
/// `bit_slot * 2^(g - s) + gate / 2^s`, column `gate mod 2^s`.
pub open spec fn f2z_cell_of(layout: LayoutModel, bit_slot: nat, gate: nat) -> (usize, usize) {
    let s = layout.gate_vars / 2;
    let h = (layout.gate_vars - s) as nat;
    (
        (bit_slot * pow2(h) + gate / pow2(s)) as usize,
        (gate % pow2(s)) as usize,
    )
}

proof fn lemma_layout_gate_vars_small(layout: LayoutModel)
    requires
        layout.wf(),
    ensures
        layout.gate_vars + U128_MUL_SLOT_VARS < usize::BITS,
{
    lemma_pow2_adds(layout.gate_vars, 9);
    assert(pow2(9) == 512) by {
        lemma2_to64();
    }
    if layout.gate_vars + 9 >= usize::BITS {
        if layout.gate_vars + 9 > usize::BITS {
            lemma_pow2_strictly_increases(usize::BITS as nat, layout.gate_vars + 9);
        }
        assert(usize::BITS == 32 || usize::BITS == 64);
        assert(pow2(32) == 0x1_0000_0000) by {
            lemma2_to64();
        }
        assert(pow2(64) == 0x1_0000_0000_0000_0000) by {
            lemma2_to64_rest();
        }
    }
}

proof fn lemma_cell_arith(
    layout: LayoutModel,
    bit_slot: usize,
    gate: usize,
    s: usize,
    h: usize,
    column_mask: usize,
    gate_high: usize,
    shifted: usize,
    b: usize,
    c: usize,
)
    requires
        layout.wf(),
        layout.gate_vars + U128_MUL_SLOT_VARS < usize::BITS,
        bit_slot < U128_MUL_BIT_SLOTS,
        gate < layout.capacity,
        s == layout.gate_vars / 2,
        h == layout.gate_vars - s,
        column_mask == pow2(s as nat) - 1,
        gate_high == gate >> s,
        shifted == bit_slot << h,
        b == shifted | gate_high,
        c == gate & column_mask,
    ensures
        f2z_cell_of(layout, bit_slot as nat, gate as nat) == (b, c),
{
    lemma_usize_shr_is_div(gate, s);
    lemma_pow2_adds(h as nat, s as nat);
    lemma_pow2_pos(s as nat);
    lemma_pow2_pos(h as nat);
    // gate / 2^s < 2^h
    assert(pow2(s as nat) * pow2(h as nat) == pow2(layout.gate_vars)) by {
        vstd::arithmetic::mul::lemma_mul_is_commutative(pow2(s as nat) as int, pow2(h as nat) as int);
    }
    vstd::arithmetic::div_mod::lemma_multiply_divide_lt(
        gate as int,
        pow2(s as nat) as int,
        pow2(h as nat) as int,
    );
    assert(bit_slot * pow2(h as nat) < pow2(9) * pow2(h as nat)) by {
        assert(pow2(9) == 512) by {
            lemma2_to64();
        }
        vstd::arithmetic::mul::lemma_mul_strict_inequality(
            bit_slot as int,
            512,
            pow2(h as nat) as int,
        );
    }
    lemma_pow2_adds(9, h as nat);
    if 9 + h < usize::BITS {
        lemma_usize_pow2_no_overflow((9 + h) as nat);
    }
    lemma_usize_shl_is_mul(bit_slot, h);
    lemma_usize_pow2_no_overflow(h as nat);
    lemma_usize_shl_is_mul(1, h);
    assert(shifted | gate_high == shifted + gate_high) by (bit_vector)
        requires
            shifted == bit_slot << h,
            gate_high < (1usize << h),
            h < usize::BITS,
    ;
    assert(low_bits_mask(s as nat) == pow2(s as nat) - 1);
    lemma_usize_low_bits_mask_is_mod(gate, s as nat);
    lemma_usize_pow2_no_overflow(s as nat);
    assert(column_mask == low_bits_mask(s as nat) as usize);
    assert(c == gate % (pow2(s as nat) as usize));
    assert(c == (gate as nat) % pow2(s as nat));
    assert(gate_high == (gate as nat) / pow2(s as nat));
    assert(shifted == bit_slot * pow2(h as nat));
    assert(b == bit_slot * pow2(h as nat) + (gate as nat) / pow2(s as nat));
}


/// Mathematical content of a witness: its layout and the four padded
/// blocks `x`, `y`, `z_lo`, `z_hi`.
pub struct WitnessModel {
    pub layout: LayoutModel,
    pub x: Seq<u128>,
    pub y: Seq<u128>,
    pub z_lo: Seq<u128>,
    pub z_hi: Seq<u128>,
}

impl WitnessModel {
    /// The exact assignment: every block has `capacity` entries, every live
    /// row holds `x · y = z_hi · 2^128 + z_lo`, and every padding gate is zero.
    pub open spec fn wf(self) -> bool {
        &&& self.layout.wf()
        &&& self.x.len() == self.layout.capacity
        &&& self.y.len() == self.layout.capacity
        &&& self.z_lo.len() == self.layout.capacity
        &&& self.z_hi.len() == self.layout.capacity
        &&& forall|i: int|
            0 <= i < self.layout.multiplications ==> #[trigger] self.z_hi[i] as int * pow128()
                + self.z_lo[i] as int == self.x[i] as int * self.y[i] as int
        &&& forall|i: int|
            self.layout.multiplications <= i < self.layout.capacity ==> #[trigger] self.x[i] == 0
        &&& forall|i: int|
            self.layout.multiplications <= i < self.layout.capacity ==> #[trigger] self.y[i] == 0
        &&& forall|i: int|
            self.layout.multiplications <= i < self.layout.capacity ==> #[trigger] self.z_lo[i]
                == 0
        &&& forall|i: int|
            self.layout.multiplications <= i < self.layout.capacity ==> #[trigger] self.z_hi[i]
                == 0
    }
}

/// Exact native assignment for a batch of u128 multiplications, stored as
/// per-block tables of host integers: `x`, `y` as `u128`, `z` as its low
/// and high 128-bit halves. Unused gates are zero.
#[derive(Debug, PartialEq, Eq)]
pub struct U128MulWitness {
    layout: U128MulLayout,
    x: Vec<u128>,
    y: Vec<u128>,
    z_lo: Vec<u128>,
    z_hi: Vec<u128>,
}

impl View for U128MulWitness {
    type V = WitnessModel;

    closed spec fn view(&self) -> WitnessModel {
        WitnessModel {
            layout: self.layout@,
            x: self.x@,
            y: self.y@,
            z_lo: self.z_lo@,
            z_hi: self.z_hi@,
        }
    }
}

impl U128MulWitness {
    #[verifier::type_invariant]
    closed spec fn well_formed(self) -> bool {
        self@.wf()
    }

    /// Constructs the exact assignment from explicit operand pairs.
    pub fn from_inputs(inputs: &[(u128, u128)]) -> (result: Result<Self, U128MulError>)
        ensures
            inputs.len() == 0 ==> result == Err::<Self, U128MulError>(U128MulError::EmptyBatch),
            inputs.len() > 0 && capacity_too_large(capacity_target(inputs.len() as nat))
                ==> result == Err::<Self, U128MulError>(U128MulError::DomainTooLarge),
            inputs.len() > 0 && !capacity_too_large(capacity_target(inputs.len() as nat))
                ==> result is Ok,
            result matches Ok(w) ==> w@.wf() && w@.layout.multiplications == inputs.len() && (
            forall|i: int|
                0 <= i < inputs.len() ==> #[trigger] w@.x[i] == inputs[i].0 && w@.y[i]
                    == inputs[i].1),
    {
        let input = |index: usize| -> (pair: (u128, u128))
            requires
                index < inputs.len(),
            ensures
                pair == inputs[index as int],
            { inputs[index] };
        Self::from_fn(inputs.len(), input)
    }

    /// Constructs the exact assignment from a function giving the operands
    /// of each live row.
    pub fn from_fn(
        multiplications: usize,
        input: impl Fn(usize) -> (u128, u128),
    ) -> (result: Result<Self, U128MulError>)
        requires
            forall|i: usize| i < multiplications ==> #[trigger] input.requires((i,)),
        ensures
            multiplications == 0 ==> result == Err::<Self, U128MulError>(U128MulError::EmptyBatch),
            multiplications > 0 && capacity_too_large(capacity_target(multiplications as nat))
                ==> result == Err::<Self, U128MulError>(U128MulError::DomainTooLarge),
            multiplications > 0 && !capacity_too_large(capacity_target(multiplications as nat))
                ==> result is Ok,
            result matches Ok(w) ==> w@.wf() && w@.layout.multiplications == multiplications && (
            forall|i: int|
                0 <= i < multiplications ==> input.ensures(
                    (i as usize,),
                    (#[trigger] w@.x[i], w@.y[i]),
                )),
    {
        let layout = match U128MulLayout::new(multiplications) {
            Ok(layout) => layout,
            Err(error) => return Err(error),
        };
        let capacity = layout.capacity();
        let mut x: Vec<u128> = Vec::new();
        let mut y: Vec<u128> = Vec::new();
        let mut z_lo: Vec<u128> = Vec::new();
        let mut z_hi: Vec<u128> = Vec::new();
        for index in 0..capacity
            invariant
                layout@.wf(),
                layout@.multiplications == multiplications,
                capacity == layout@.capacity,
                x.len() == index,
                y.len() == index,
                z_lo.len() == index,
                z_hi.len() == index,
                forall|i: usize| i < multiplications ==> #[trigger] input.requires((i,)),
                forall|i: int|
                    0 <= i < index && i < multiplications ==> #[trigger] z_hi[i] as int * pow128()
                        + z_lo[i] as int == x[i] as int * y[i] as int,
                forall|i: int|
                    0 <= i < index && i < multiplications ==> input.ensures(
                        (i as usize,),
                        (#[trigger] x[i], y[i]),
                    ),
                forall|i: int| multiplications <= i < index ==> #[trigger] x[i] == 0,
                forall|i: int| multiplications <= i < index ==> #[trigger] y[i] == 0,
                forall|i: int| multiplications <= i < index ==> #[trigger] z_lo[i] == 0,
                forall|i: int| multiplications <= i < index ==> #[trigger] z_hi[i] == 0,
        {
            if index < multiplications {
                let (a, b) = input(index);
                let (lo, hi) = mul_u128_full(a, b);
                x.push(a);
                y.push(b);
                z_lo.push(lo);
                z_hi.push(hi);
            } else {
                x.push(0);
                y.push(0);
                z_lo.push(0);
                z_hi.push(0);
            }
        }
        Ok(U128MulWitness { layout, x, y, z_lo, z_hi })
    }

    /// Shape shared by this assignment and its bit representation.
    pub fn layout(&self) -> (layout: &U128MulLayout)
        ensures
            layout@ == self@.layout,
            self@.wf(),
    {
        proof {
            use_type_invariant(self);
        }
        &self.layout
    }

    /// Padded left-operand block.
    pub fn x_values(&self) -> (values: &[u128])
        ensures
            values@ == self@.x,
            self@.wf(),
    {
        proof {
            use_type_invariant(self);
        }
        self.x.as_slice()
    }

    /// Padded right-operand block.
    pub fn y_values(&self) -> (values: &[u128])
        ensures
            values@ == self@.y,
            self@.wf(),
    {
        proof {
            use_type_invariant(self);
        }
        self.y.as_slice()
    }

    /// Padded low halves of the products.
    pub fn z_lo_values(&self) -> (values: &[u128])
        ensures
            values@ == self@.z_lo,
            self@.wf(),
    {
        proof {
            use_type_invariant(self);
        }
        self.z_lo.as_slice()
    }

    /// Padded high halves of the products.
    pub fn z_hi_values(&self) -> (values: &[u128])
        ensures
            values@ == self@.z_hi,
            self@.wf(),
    {
        proof {
            use_type_invariant(self);
        }
        self.z_hi.as_slice()
    }

    /// The exact product of row `index` as `(low, high)` halves.
    pub fn product(&self, index: usize) -> (product: (u128, u128))
        requires
            index < self@.layout.capacity,
        ensures
            product == (self@.z_lo[index as int], self@.z_hi[index as int]),
            product.1 as int * pow128() + product.0 as int == self@.x[index as int] as int
                * self@.y[index as int] as int,
    {
        proof {
            use_type_invariant(self);
        }
        (self.z_lo[index], self.z_hi[index])
    }
}


/// The 128-bit value of block `block` (`0 = x`, `1 = y`, `2 = z_lo`,
/// `3 = z_hi`) at gate `gate`.
pub open spec fn block_value(w: WitnessModel, block: int, gate: int) -> u128 {
    if block == 0 {
        w.x[gate]
    } else if block == 1 {
        w.y[gate]
    } else if block == 2 {
        w.z_lo[gate]
    } else {
        w.z_hi[gate]
    }
}

/// Committed 64-bit word `word` (`0 <= word < 8`) of gate `gate`, in slot
/// order `x_lo, x_hi, y_lo, y_hi, z0, z1, z2, z3`.
pub open spec fn gate_word_of(w: WitnessModel, gate: int, word: int) -> u64 {
    let value = block_value(w, word / 2, gate);
    if word % 2 == 0 {
        value as u64
    } else {
        (value >> 64u128) as u64
    }
}

/// Committed bit slot `slot` (`0 <= slot < 512`) of gate `gate`.
pub open spec fn slot_bit(w: WitnessModel, gate: int, slot: int) -> bool {
    (gate_word_of(w, gate, slot / 64) >> ((slot % 64) as u64)) & 1u64 == 1u64
}

proof fn lemma_u128_word_bits(v: u128, j: u64)
    requires
        j < 64,
    ensures
        ((v as u64) >> j) & 1u64 == 1u64 <==> (v >> (j as u128)) & 1u128 == 1u128,
        (((v >> 64u128) as u64) >> j) & 1u64 == 1u64 <==> (v >> ((j + 64) as u128)) & 1u128
            == 1u128,
{
    assert(((v as u64) >> j) & 1u64 == 1u64 <==> (v >> (j as u128)) & 1u128 == 1u128)
        by (bit_vector)
        requires
            j < 64,
    ;
    assert((((v >> 64u128) as u64) >> j) & 1u64 == 1u64 <==> (v >> ((j + 64) as u128)) & 1u128
        == 1u128) by (bit_vector)
        requires
            j < 64,
    ;
}

/// The committed bit slots of a gate are the little-endian bits of its
/// values: slot `j` is bit `j` of `x`, slot `128 + j` bit `j` of `y`,
/// slot `256 + j` bit `j` of `z_lo` and slot `384 + j` bit `j` of `z_hi`.
pub proof fn lemma_slot_bits_are_value_bits(w: WitnessModel, gate: int, j: int)
    requires
        0 <= j < 128,
    ensures
        slot_bit(w, gate, U128_MUL_X_SLOT_START + j) == ((w.x[gate] >> (j as u128)) & 1u128
            == 1u128),
        slot_bit(w, gate, U128_MUL_Y_SLOT_START + j) == ((w.y[gate] >> (j as u128)) & 1u128
            == 1u128),
        slot_bit(w, gate, U128_MUL_Z_SLOT_START + j) == ((w.z_lo[gate] >> (j as u128)) & 1u128
            == 1u128),
        slot_bit(w, gate, U128_MUL_Z_SLOT_START + 128 + j) == ((w.z_hi[gate] >> (j as u128))
            & 1u128 == 1u128),
{
    let k = (j % 64) as u64;
    lemma_u128_word_bits(w.x[gate], k);
    lemma_u128_word_bits(w.y[gate], k);
    lemma_u128_word_bits(w.z_lo[gate], k);
    lemma_u128_word_bits(w.z_hi[gate], k);
}

impl U128MulWitness {
    /// The eight 64-bit committed words of one gate, in slot order.
    pub fn gate_words(&self, gate: usize) -> (words: [u64; 8])
        requires
            gate < self@.layout.capacity,
        ensures
            forall|k: int| 0 <= k < 8 ==> #[trigger] words[k] == gate_word_of(self@, gate as int, k),
    {
        proof {
            use_type_invariant(self);
        }
        let x = self.x[gate];
        let y = self.y[gate];
        let z_lo = self.z_lo[gate];
        let z_hi = self.z_hi[gate];
        [
            x as u64,
            (x >> 64) as u64,
            y as u64,
            (y >> 64) as u64,
            z_lo as u64,
            (z_lo >> 64) as u64,
            z_hi as u64,
            (z_hi >> 64) as u64,
        ]
    }
}


/// Bit `b` of packed column `c`: bit `b mod 64` of word `b / 64`.
pub open spec fn packed_cell(rows: Seq<Vec<u64>>, b: int, c: int) -> bool {
    (rows[c]@[b / 64] >> ((b % 64) as u64)) & 1u64 == 1u64
}

/// The packed cell holding committed bit slot `slot` of gate `gate`.
pub open spec fn cell_bit(rows: Seq<Vec<u64>>, layout: LayoutModel, slot: int, gate: int) -> bool {
    let bc = f2z_cell_of(layout, slot as nat, gate as nat);
    packed_cell(rows, bc.0 as int, bc.1 as int)
}

/// `2^s` columns of `2^t / 64` words each, for the layout's F2Z shape.
pub open spec fn rows_shape(rows: Seq<Vec<u64>>, layout: LayoutModel) -> bool {
    let s = layout.gate_vars / 2;
    let t = U128_MUL_SLOT_VARS + layout.gate_vars - s;
    &&& rows.len() == pow2(s)
    &&& forall|c: int| 0 <= c < rows.len() ==> #[trigger] rows[c]@.len() == pow2(t as nat) / 64
}

/// The cell map is row-major over the `2^t × 2^s` grid: cell `(b, c)` of
/// committed bit `slot` of gate `gate` has flat index
/// `b · 2^s + c = slot · capacity + gate`, with `b < 2^t` and `c < 2^s`.
pub proof fn lemma_cell_index(layout: LayoutModel, slot: nat, gate: nat)
    requires
        layout.wf(),
        slot < U128_MUL_BIT_SLOTS,
        gate < layout.capacity,
    ensures
        ({
            let s = layout.gate_vars / 2;
            let h = (layout.gate_vars - s) as nat;
            let t = (U128_MUL_SLOT_VARS + h) as nat;
            let bc = f2z_cell_of(layout, slot, gate);
            &&& bc.0 as int == slot * pow2(h) + gate / pow2(s)
            &&& bc.1 as int == gate % pow2(s)
            &&& bc.0 < pow2(t)
            &&& bc.1 < pow2(s)
            &&& bc.0 as int * pow2(s) + bc.1 as int == slot * layout.capacity + gate
        }),
{
    let s = layout.gate_vars / 2;
    let h = (layout.gate_vars - s) as nat;
    let t = (U128_MUL_SLOT_VARS + h) as nat;
    lemma_pow2_pos(s);
    lemma_pow2_pos(h);
    lemma_pow2_adds(h, s);
    lemma_pow2_adds(9, h);
    lemma_pow2_adds(9, layout.gate_vars);
    assert(pow2(9) == 512) by {
        lemma2_to64();
    }
    assert(pow2(s) * pow2(h) == pow2(layout.gate_vars)) by {
        vstd::arithmetic::mul::lemma_mul_is_commutative(pow2(s) as int, pow2(h) as int);
    }
    vstd::arithmetic::div_mod::lemma_multiply_divide_lt(gate as int, pow2(s) as int, pow2(h) as int);
    vstd::arithmetic::div_mod::lemma_fundamental_div_mod(gate as int, pow2(s) as int);
    vstd::arithmetic::div_mod::lemma_mod_bound(gate as int, pow2(s) as int);
    let q = gate / pow2(s);
    let r = gate % pow2(s);
    let ph = pow2(h) as int;
    let ps = pow2(s) as int;
    assert(slot * ph + q < 512 * ph) by (nonlinear_arith)
        requires
            0 <= slot < 512,
            0 <= q < ph,
    ;
    assert((slot * ph + q) * ps + r == slot * (ph * ps) + gate) by (nonlinear_arith)
        requires
            gate == ps * q + r,
    ;
    assert(512 * ph <= 512 * layout.capacity) by (nonlinear_arith)
        requires
            ph * ps == layout.capacity,
            ph >= 1,
            ps >= 1,
    ;
    assert(ph * ps == layout.capacity);
    let bc = f2z_cell_of(layout, slot, gate);
    assert(bc.0 as int == slot * pow2(h) + gate / pow2(s));
    assert(bc.1 as int == gate % pow2(s));
    assert(bc.0 < pow2(t));
    assert(bc.1 < pow2(s));
    assert(bc.0 as int * pow2(s) + bc.1 as int == slot * layout.capacity + gate);
}

/// Distinct committed bits land in distinct cells.
pub proof fn lemma_cell_injective(layout: LayoutModel, s1: nat, g1: nat, s2: nat, g2: nat)
    requires
        layout.wf(),
        s1 < U128_MUL_BIT_SLOTS,
        s2 < U128_MUL_BIT_SLOTS,
        g1 < layout.capacity,
        g2 < layout.capacity,
        f2z_cell_of(layout, s1, g1) == f2z_cell_of(layout, s2, g2),
    ensures
        s1 == s2,
        g1 == g2,
{
    lemma_cell_index(layout, s1, g1);
    lemma_cell_index(layout, s2, g2);
    let cap = layout.capacity as int;
    assert(s1 == s2 && g1 == g2) by (nonlinear_arith)
        requires
            s1 * cap + g1 == s2 * cap + g2,
            0 <= g1 < cap,
            0 <= g2 < cap,
            0 <= s1,
            0 <= s2,
    ;
}

proof fn lemma_word_bit_set(word: u64, k0: u64, k: u64)
    requires
        k0 < 64,
        k < 64,
    ensures
        ((word | (1u64 << k0)) >> k) & 1u64 == 1u64 <==> ((word >> k) & 1u64 == 1u64 || k == k0),
{
    assert(((word | (1u64 << k0)) >> k) & 1u64 == 1u64 <==> ((word >> k) & 1u64 == 1u64 || k
        == k0)) by (bit_vector)
        requires
            k0 < 64,
            k < 64,
    ;
}

proof fn lemma_set_cell(
    old_rows: Seq<Vec<u64>>,
    new_rows: Seq<Vec<u64>>,
    layout: LayoutModel,
    slot0: nat,
    gate0: nat,
)
    requires
        layout.wf(),
        rows_shape(old_rows, layout),
        slot0 < U128_MUL_BIT_SLOTS,
        gate0 < layout.capacity,
        ({
            let bc = f2z_cell_of(layout, slot0, gate0);
            let b0 = bc.0 as int;
            let c0 = bc.1 as int;
            &&& new_rows.len() == old_rows.len()
            &&& forall|c: int| 0 <= c < old_rows.len() && c != c0 ==> #[trigger] new_rows[c]
                == old_rows[c]
            &&& new_rows[c0]@ == old_rows[c0]@.update(
                b0 / 64,
                old_rows[c0]@[b0 / 64] | (1u64 << ((b0 % 64) as u64)),
            )
        }),
    ensures
        rows_shape(new_rows, layout),
        forall|slot: int, gate: int|
            0 <= slot < U128_MUL_BIT_SLOTS && 0 <= gate < layout.capacity ==> #[trigger] cell_bit(
                new_rows,
                layout,
                slot,
                gate,
            ) == (cell_bit(old_rows, layout, slot, gate) || (slot == slot0 && gate == gate0)),
{
    let s = layout.gate_vars / 2;
    let t = (U128_MUL_SLOT_VARS + layout.gate_vars - s) as nat;
    let bc0 = f2z_cell_of(layout, slot0, gate0);
    let b0 = bc0.0 as int;
    let c0 = bc0.1 as int;
    lemma_cell_index(layout, slot0, gate0);
    lemma_pow2_adds(6, (t - 6) as nat);
    assert(pow2(6) == 64) by {
        lemma2_to64();
    }
    assert(pow2(t) / 64 == pow2((t - 6) as nat)) by {
        vstd::arithmetic::div_mod::lemma_div_by_multiple(pow2((t - 6) as nat) as int, 64);
    }
    assert(rows_shape(new_rows, layout)) by {
        assert forall|c: int| 0 <= c < new_rows.len() implies #[trigger] new_rows[c]@.len()
            == pow2(t) / 64 by {
            if c != c0 {
                assert(new_rows[c] == old_rows[c]);
            }
        }
    }
    assert forall|slot: int, gate: int|
        0 <= slot < U128_MUL_BIT_SLOTS && 0 <= gate < layout.capacity implies #[trigger] cell_bit(
        new_rows,
        layout,
        slot,
        gate,
    ) == (cell_bit(old_rows, layout, slot, gate) || (slot == slot0 && gate == gate0)) by {
        let bc = f2z_cell_of(layout, slot as nat, gate as nat);
        let b = bc.0 as int;
        let c = bc.1 as int;
        lemma_cell_index(layout, slot as nat, gate as nat);
        if c != c0 {
            assert(new_rows[c] == old_rows[c]);
            if slot == slot0 && gate == gate0 {
                assert(false);
            }
        } else if b / 64 != b0 / 64 {
            if slot == slot0 && gate == gate0 {
                assert(false);
            }
        } else {
            let word = old_rows[c0]@[b0 / 64];
            lemma_word_bit_set(word, (b0 % 64) as u64, (b % 64) as u64);
            if b % 64 == b0 % 64 {
                assert(b == b0);
                lemma_cell_injective(layout, slot as nat, gate as nat, slot0, gate0);
            } else {
                if slot == slot0 && gate == gate0 {
                    assert(false);
                }
            }
        }
    }
}

/// Each cell of `rows` is its cell in `init`, or-ed with the committed bit
/// if it belongs to a gate before `gate`, or to a slot before `limit` at
/// gate `gate`.
pub open spec fn rows_reflect(
    rows: Seq<Vec<u64>>,
    init: Seq<Vec<u64>>,
    w: WitnessModel,
    gate: int,
    limit: int,
) -> bool {
    forall|slot: int, g: int|
        0 <= slot < U128_MUL_BIT_SLOTS && 0 <= g < w.layout.capacity ==> #[trigger] cell_bit(
            rows,
            w.layout,
            slot,
            g,
        ) == (cell_bit(init, w.layout, slot, g) || ((g < gate || (g == gate && slot < limit))
            && slot_bit(w, g, slot)))
}

proof fn lemma_bit_test(value: u64, bit: u64)
    requires
        bit < 64,
    ensures
        (value & (1u64 << bit) == 0u64) <==> !((value >> bit) & 1u64 == 1u64),
{
    assert((value & (1u64 << bit) == 0u64) <==> !((value >> bit) & 1u64 == 1u64)) by (bit_vector)
        requires
            bit < 64,
    ;
}

impl U128MulWitness {
    /// Builds the compact F2Z rows: row `c` is `2^t` bits, and the cell
    /// `f2z_cell(slot, gate)` holds committed bit `slot` of gate `gate`.
    pub fn f2z_bit_rows(&self) -> (rows: Vec<Vec<u64>>)
        ensures
            rows_shape(rows@, self@.layout),
            forall|slot: int, gate: int|
                0 <= slot < U128_MUL_BIT_SLOTS && 0 <= gate < self@.layout.capacity
                    ==> #[trigger] cell_bit(rows@, self@.layout, slot, gate) == (gate
                    < self@.layout.multiplications && slot_bit(self@, gate, slot)),
    {
        proof {
            use_type_invariant(self);
        }
        let params = self.layout.f2z_params();
        let words_per_row = params.rows() / 64;
        let cols = params.cols();
        let mut rows: Vec<Vec<u64>> = Vec::new();
        for c in 0..cols
            invariant
                rows.len() == c,
                words_per_row == pow2(params.t as nat) / 64,
                forall|j: int| 0 <= j < c ==> #[trigger] rows[j]@.len() == words_per_row,
                forall|j: int, k: int|
                    0 <= j < c && 0 <= k < words_per_row ==> #[trigger] rows[j]@[k] == 0u64,
        {
            let mut row: Vec<u64> = Vec::new();
            for k in 0..words_per_row
                invariant
                    row.len() == k,
                    forall|i: int| 0 <= i < k ==> #[trigger] row@[i] == 0u64,
            {
                row.push(0u64);
            }
            rows.push(row);
        }
        proof {
            assert forall|slot: int, g: int|
                0 <= slot < U128_MUL_BIT_SLOTS && 0 <= g < self@.layout.capacity implies
                #[trigger] cell_bit(rows@, self@.layout, slot, g) == false by {
                lemma_cell_index(self@.layout, slot as nat, g as nat);
                let bc = f2z_cell_of(self@.layout, slot as nat, g as nat);
                let b = bc.0 as int;
                lemma_pow2_adds(6, (params.t - 6) as nat);
                assert(pow2(6) == 64) by {
                    lemma2_to64();
                }
                vstd::arithmetic::div_mod::lemma_div_by_multiple(
                    pow2((params.t - 6) as nat) as int,
                    64,
                );
                vstd::arithmetic::div_mod::lemma_multiply_divide_lt(
                    b,
                    64,
                    pow2((params.t - 6) as nat) as int,
                );
                let k = (b % 64) as u64;
                assert((0u64 >> k) & 1u64 == 0u64) by (bit_vector);
            }
        }
        self.write_bit_rows_bitwise(&mut rows);
        rows
    }

    /// Reference packing: one masked read-modify-write per committed bit,
    /// or-ing each set bit of a live gate into its cell.
    pub fn write_bit_rows_bitwise(&self, rows: &mut Vec<Vec<u64>>)
        requires
            rows_shape(old(rows)@, self@.layout),
        ensures
            rows_shape(final(rows)@, self@.layout),
            forall|slot: int, gate: int|
                0 <= slot < U128_MUL_BIT_SLOTS && 0 <= gate < self@.layout.capacity
                    ==> #[trigger] cell_bit(final(rows)@, self@.layout, slot, gate) == (cell_bit(
                    old(rows)@,
                    self@.layout,
                    slot,
                    gate,
                ) || (gate < self@.layout.multiplications && slot_bit(self@, gate, slot))),
    {
        proof {
            use_type_invariant(self);
        }
        let multiplications = self.layout.multiplications();
        let ghost init = rows@;
        for gate in 0..multiplications
            invariant
                self@.wf(),
                multiplications == self@.layout.multiplications,
                rows_shape(rows@, self@.layout),
                rows_shape(init, self@.layout),
                init == old(rows)@,
                rows_reflect(rows@, init, self@, gate as int, 0),
        {
            let words = self.gate_words(gate);
            for word in 0..8usize
                invariant
                    self@.wf(),
                    gate < multiplications,
                    multiplications == self@.layout.multiplications,
                    forall|k: int| 0 <= k < 8 ==> #[trigger] words[k] == gate_word_of(self@, gate as int, k),
                    rows_shape(rows@, self@.layout),
                    rows_reflect(rows@, init, self@, gate as int, (word * 64) as int),
            {
                let value = words[word];
                for bit in 0..64usize
                    invariant
                        self@.wf(),
                        gate < multiplications,
                        word < 8,
                        multiplications == self@.layout.multiplications,
                        value == gate_word_of(self@, gate as int, word as int),
                        rows_shape(rows@, self@.layout),
                        rows_reflect(rows@, init, self@, gate as int, (word * 64 + bit) as int),
                {
                    let slot = word * 64 + bit;
                    proof {
                        lemma_bit_test(value, bit as u64);
                        assert(slot / 64 == word && slot % 64 == bit);
                    }
                    if value & (1u64 << bit) != 0 {
                        let cell = self.layout.f2z_cell(slot, gate);
                        match cell {
                            Some((b, c)) => {
                                proof {
                                    lemma_cell_index(self@.layout, slot as nat, gate as nat);
                                    lemma_pow2_adds(6, (U128_MUL_SLOT_VARS + self@.layout.gate_vars
                                        - self@.layout.gate_vars / 2 - 6) as nat);
                                    assert(pow2(6) == 64) by {
                                        lemma2_to64();
                                    }
                                    vstd::arithmetic::div_mod::lemma_div_by_multiple(
                                        pow2((U128_MUL_SLOT_VARS + self@.layout.gate_vars
                                            - self@.layout.gate_vars / 2 - 6) as nat) as int,
                                        64,
                                    );
                                    vstd::arithmetic::div_mod::lemma_multiply_divide_lt(
                                        b as int,
                                        64,
                                        pow2((U128_MUL_SLOT_VARS + self@.layout.gate_vars
                                            - self@.layout.gate_vars / 2 - 6) as nat) as int,
                                    );
                                }
                                let ghost old_rows = rows@;
                                rows[c][b / 64] |= 1u64 << (b % 64);
                                proof {
                                    lemma_set_cell(
                                        old_rows,
                                        rows@,
                                        self@.layout,
                                        slot as nat,
                                        gate as nat,
                                    );
                                }
                            },
                            None => {},
                        }
                    }
                }
            }
        }
    }
}


/// A Boolean sparse matrix in compressed-sparse-column form.
#[derive(Debug, PartialEq, Eq)]
pub struct SelectorMatrix {
    rows: usize,
    columns: usize,
    column_offsets: Vec<usize>,
    row_indices: Vec<usize>,
    coefficients: Vec<bool>,
}

/// Mathematical content of a compressed-sparse-column matrix.
pub struct CscModel {
    pub rows: nat,
    pub columns: nat,
    pub column_offsets: Seq<usize>,
    pub row_indices: Seq<usize>,
    pub coefficients: Seq<bool>,
}

impl CscModel {
    /// The entries of column `col`: positions `offsets[col] .. offsets[col + 1]`.
    pub open spec fn column(self, col: int) -> Seq<(usize, bool)> {
        Seq::new(
            (self.column_offsets[col + 1] - self.column_offsets[col]) as nat,
            |k: int|
                (
                    self.row_indices[self.column_offsets[col] + k],
                    self.coefficients[self.column_offsets[col] + k],
                ),
        )
    }

    /// The selector of block `block` of a layout: one `true` entry at row
    /// `i`, column `block * capacity + i`, for each live row `i`.
    pub open spec fn is_block_selector(self, layout: LayoutModel, block: nat) -> bool {
        let offset = block * layout.capacity;
        &&& self.rows == layout.multiplications
        &&& self.columns == U128_MUL_ASSIGNMENT_BLOCKS * layout.capacity
        &&& self.column_offsets.len() == self.columns + 1
        &&& self.row_indices.len() == layout.multiplications
        &&& self.coefficients.len() == layout.multiplications
        &&& forall|col: int|
            0 <= col <= self.columns ==> #[trigger] self.column_offsets[col] == if col <= offset {
                0
            } else if col <= offset + layout.multiplications {
                col - offset
            } else {
                layout.multiplications as int
            }
        &&& forall|i: int| 0 <= i < layout.multiplications ==> #[trigger] self.row_indices[i] == i
        &&& forall|i: int| 0 <= i < layout.multiplications ==> #[trigger] self.coefficients[i]
    }
}

impl View for SelectorMatrix {
    type V = CscModel;

    closed spec fn view(&self) -> CscModel {
        CscModel {
            rows: self.rows as nat,
            columns: self.columns as nat,
            column_offsets: self.column_offsets@,
            row_indices: self.row_indices@,
            coefficients: self.coefficients@,
        }
    }
}

/// A selector's column `col` holds the single entry `(i, true)` when
/// `col = block * capacity + i` for a live row `i`, and nothing otherwise.
pub proof fn lemma_selector_columns(m: CscModel, layout: LayoutModel, block: nat, col: int)
    requires
        layout.wf(),
        1 <= block < U128_MUL_ASSIGNMENT_BLOCKS,
        m.is_block_selector(layout, block),
        0 <= col < m.columns,
    ensures
        ({
            let offset = block * layout.capacity;
            if offset <= col < offset + layout.multiplications {
                m.column(col) =~= seq![((col - offset) as usize, true)]
            } else {
                m.column(col).len() == 0
            }
        }),
{
    let offset = block * layout.capacity;
    assert(m.column_offsets[col] == if col <= offset {
        0
    } else if col <= offset + layout.multiplications {
        col - offset
    } else {
        layout.multiplications as int
    });
    assert(m.column_offsets[col + 1] == if col + 1 <= offset {
        0
    } else if col + 1 <= offset + layout.multiplications {
        col + 1 - offset
    } else {
        layout.multiplications as int
    });
}

impl CscModel {
    /// Well-formed compressed-sparse-column parts: `columns + 1`
    /// nondecreasing offsets into equally long index and coefficient lists.
    pub open spec fn valid(self) -> bool {
        &&& self.column_offsets.len() == self.columns + 1
        &&& forall|c: int| 0 <= c < self.columns ==> #[trigger] self.column_offsets[c]
            <= self.column_offsets[c + 1]
        &&& forall|c: int| 0 <= c <= self.columns ==> #[trigger] self.column_offsets[c]
            <= self.row_indices.len()
        &&& self.row_indices.len() == self.coefficients.len()
    }
}

impl SelectorMatrix {
    #[verifier::type_invariant]
    closed spec fn csc_valid(self) -> bool {
        self@.valid()
    }

    /// Number of rows.
    pub fn row_count(&self) -> (r: usize)
        ensures
            r == self@.rows,
    {
        self.rows
    }

    /// Number of columns.
    pub fn column_count(&self) -> (r: usize)
        ensures
            r == self@.columns,
    {
        self.columns
    }

    /// The `(row, coefficient)` entries of column `col`, or `None` when
    /// `col` is out of range.
    pub fn column(&self, col: usize) -> (entries: Option<Vec<(usize, bool)>>)
        ensures
            col >= self@.columns <==> entries is None,
            entries matches Some(e) ==> e@ == self@.column(col as int),
    {
        proof {
            use_type_invariant(self);
        }
        if col >= self.columns {
            return None;
        }
        let start = self.column_offsets[col];
        let end = self.column_offsets[col + 1];
        let mut entries: Vec<(usize, bool)> = Vec::new();
        for k in start..end
            invariant
                start == self@.column_offsets[col as int],
                end == self@.column_offsets[col as int + 1],
                start <= end <= self@.row_indices.len(),
                self@.row_indices.len() == self@.coefficients.len(),
                entries@ =~= self@.column(col as int).take(k - start),
        {
            entries.push((self.row_indices[k], self.coefficients[k]));
            assert(self@.column(col as int).take(k + 1 - start) =~= self@.column(col as int).take(
                k - start,
            ).push((self@.row_indices[k as int], self@.coefficients[k as int])));
        }
        assert(self@.column(col as int).take(end - start) =~= self@.column(col as int));
        Some(entries)
    }
}

proof fn lemma_offsets_monotone(offsets: Seq<usize>, columns: int, offset: int, rows: int)
    requires
        offsets.len() == columns + 1,
        0 <= rows,
        forall|j: int|
            0 <= j <= columns ==> #[trigger] offsets[j] == if j <= offset {
                0
            } else if j <= offset + rows {
                j - offset
            } else {
                rows
            },
    ensures
        forall|c: int| 0 <= c < columns ==> #[trigger] offsets[c] <= offsets[c + 1],
        forall|c: int| 0 <= c <= columns ==> #[trigger] offsets[c] <= rows,
{
    assert forall|c: int| 0 <= c < columns implies #[trigger] offsets[c] <= offsets[c + 1] by {
        assert(offsets[c + 1] == if c + 1 <= offset {
            0
        } else if c + 1 <= offset + rows {
            c + 1 - offset
        } else {
            rows
        });
    }
}

#[verifier::rlimit(100)]
fn selector_matrix(layout: &U128MulLayout, block: usize) -> (matrix: SelectorMatrix)
    requires
        1 <= block < U128_MUL_ASSIGNMENT_BLOCKS,
    ensures
        matrix@.is_block_selector(layout@, block as nat),
{
    let columns = layout.assignment_len();
    let rows = layout.multiplications();
    let capacity = layout.capacity();
    proof {
        assert(block * capacity <= 512 * capacity) by (nonlinear_arith)
            requires
                block < 4,
        ;
    }
    let offset = block * capacity;
    let mut column_offsets: Vec<usize> = Vec::new();
    for col in 0..columns + 1
        invariant
            layout@.wf(),
            columns == U128_MUL_ASSIGNMENT_BLOCKS * layout@.capacity,
            rows == layout@.multiplications,
            offset == block * layout@.capacity,
            column_offsets.len() == col,
            forall|j: int|
                0 <= j < col ==> #[trigger] column_offsets[j] == if j <= offset {
                    0
                } else if j <= offset + rows {
                    j - offset
                } else {
                    rows as int
                },
    {
        let boundary = if col <= offset {
            0
        } else if col <= offset + rows {
            col - offset
        } else {
            rows
        };
        column_offsets.push(boundary);
    }
    let mut row_indices: Vec<usize> = Vec::new();
    let mut coefficients: Vec<bool> = Vec::new();
    for row in 0..rows
        invariant
            row_indices.len() == row,
            coefficients.len() == row,
            forall|i: int| 0 <= i < row ==> #[trigger] row_indices[i] == i,
            forall|i: int| 0 <= i < row ==> #[trigger] coefficients[i],
    {
        row_indices.push(row);
        coefficients.push(true);
    }
    proof {
        lemma_offsets_monotone(column_offsets@, columns as int, offset as int, rows as int);
    }
    SelectorMatrix { rows, columns, column_offsets, row_indices, coefficients }
}

/// The three Boolean selector matrices of the relation.
#[derive(Debug, PartialEq, Eq)]
pub struct ConstraintMatrices {
    a: SelectorMatrix,
    b: SelectorMatrix,
    c: SelectorMatrix,
}

impl ConstraintMatrices {
    /// The left selector `A`.
    pub fn a(&self) -> (m: &SelectorMatrix)
        ensures
            m@ == self.a_model(),
    {
        &self.a
    }

    /// The right selector `B`.
    pub fn b(&self) -> (m: &SelectorMatrix)
        ensures
            m@ == self.b_model(),
    {
        &self.b
    }

    /// The output selector `C`.
    pub fn c(&self) -> (m: &SelectorMatrix)
        ensures
            m@ == self.c_model(),
    {
        &self.c
    }

    /// Content of `A`.
    pub closed spec fn a_model(&self) -> CscModel {
        self.a@
    }

    /// Content of `B`.
    pub closed spec fn b_model(&self) -> CscModel {
        self.b@
    }

    /// Content of `C`.
    pub closed spec fn c_model(&self) -> CscModel {
        self.c@
    }

    /// `A`, `B`, `C` select blocks 1, 2, 3 of `layout`.
    pub open spec fn selects_blocks(&self, layout: LayoutModel) -> bool {
        &&& self.a_model().is_block_selector(layout, 1)
        &&& self.b_model().is_block_selector(layout, 2)
        &&& self.c_model().is_block_selector(layout, 3)
    }
}

/// Builds the three Boolean selector matrices for this relation: each live
/// row `i` has one nonzero in each matrix, `A[i, M + i] = 1`,
/// `B[i, 2M + i] = 1` and `C[i, 3M + i] = 1` for capacity `M`.
pub fn u128_mul_constraint_matrices(layout: &U128MulLayout) -> (result: Result<
    ConstraintMatrices,
    U128MulError,
>)
    ensures
        result matches Ok(m) && m.selects_blocks(layout@),
{
    let a = selector_matrix(layout, 1);
    let b = selector_matrix(layout, 2);
    let c = selector_matrix(layout, 3);
    Ok(ConstraintMatrices { a, b, c })
}

} // verus!
