use crate::bitvec::BitVec;
use vstd::arithmetic::power2::pow2;
use vstd::prelude::*;

verus! {

/// True iff `j` is a power of two.  The 1-indexed positions of a codeword
/// with this property hold parity bits; all other positions hold data.
pub open spec fn parity_slot(j: nat) -> bool
    decreases j,
{
    if j == 0 {
        false
    } else if j == 1 {
        true
    } else {
        j % 2 == 0 && parity_slot(j / 2)
    }
}

/// Number of data (non-parity) positions among the 1-indexed positions
/// `1 ..= i`.
pub open spec fn num_data(i: nat) -> nat
    decreases i,
{
    if i == 0 {
        0
    } else {
        num_data((i - 1) as nat) + if parity_slot(i) {
            0nat
        } else {
            1nat
        }
    }
}

/// True iff bit `n` of the binary representation of `j` is set.
pub open spec fn has_bit(j: nat, n: nat) -> bool {
    (j / pow2(n)) % 2 == 1
}

/// XOR-fold of parity check `n` over the block positions `i, i + 1, ...`
/// (0-indexed); a position takes part iff its 1-indexed number has bit `n`
/// set.
pub open spec fn parity_fold(block: Seq<bool>, n: nat, i: int) -> bool
    decreases block.len() - i,
{
    if i < 0 || i >= block.len() {
        false
    } else {
        (if has_bit((i + 1) as nat, n) {
            block[i]
        } else {
            false
        }) != parity_fold(block, n, i + 1)
    }
}

/// The value parity check `n` computes over a block: the XOR of every
/// position after the parity position `2^n` itself whose 1-indexed number
/// has bit `n` set.
pub open spec fn check_parity(block: Seq<bool>, n: nat) -> bool {
    parity_fold(block, n, pow2(n) as int)
}

/// A codeword whose stored parity bits all agree with the recomputed
/// checks.
pub open spec fn parity_ok(block: Seq<bool>, p: nat) -> bool {
    forall|n: nat|
        n < p ==> #[trigger] check_parity(block, n) == block[pow2(n) - 1]
}

/// The sum of the mask values `2^n` of every parity check that disagrees
/// with its stored parity bit.
pub open spec fn syndrome(block: Seq<bool>, p: nat) -> nat
    decreases p,
{
    if p == 0 {
        0
    } else {
        syndrome(block, (p - 1) as nat) + if check_parity(block, (p - 1) as nat) != block[pow2(
            (p - 1) as nat,
        ) - 1] {
            pow2((p - 1) as nat)
        } else {
            0nat
        }
    }
}

/// The corrected block: a zero syndrome leaves the block alone, any other
/// syndrome names the 1-indexed position to flip.
pub open spec fn check_spec(block: Seq<bool>, p: nat) -> Seq<bool> {
    if syndrome(block, p) == 0 {
        block
    } else {
        block.update(syndrome(block, p) - 1, !block[syndrome(block, p) - 1])
    }
}

/// One parity-filling step: store the value of check `n` at position `2^n`.
pub open spec fn parity_step(block: Seq<bool>, n: nat) -> Seq<bool> {
    block.update(pow2(n) - 1, check_parity(block, n))
}

/// The block after the parity checks `0 ..< p` have been stored in order.
pub open spec fn parity_upto(block: Seq<bool>, p: nat) -> Seq<bool>
    decreases p,
{
    if p == 0 {
        block
    } else {
        parity_step(parity_upto(block, (p - 1) as nat), (p - 1) as nat)
    }
}

/// The bit an arranged block holds at position `i` (0-indexed): parity
/// placeholders are false, and the data positions carry `plain` in order
/// from `start`, padded with false past the end of `plain`.
pub open spec fn arrange_bit(plain: Seq<bool>, start: int, i: int) -> bool {
    if parity_slot((i + 1) as nat) {
        false
    } else {
        let idx = start + num_data(i as nat);
        if 0 <= idx < plain.len() {
            plain[idx]
        } else {
            false
        }
    }
}

/// The bits at the data positions of `block` from position `i` on, in
/// order.
pub open spec fn data_bits(block: Seq<bool>, i: int) -> Seq<bool>
    decreases block.len() - i,
{
    if i < 0 || i >= block.len() {
        Seq::empty()
    } else if parity_slot((i + 1) as nat) {
        data_bits(block, i + 1)
    } else {
        seq![block[i]] + data_bits(block, i + 1)
    }
}

/// The codeword for the data group of `plain` that starts at bit `start`:
/// the arranged block with its parity bits filled in.
pub open spec fn coded_block(plain: Seq<bool>, start: int, p: nat) -> Seq<bool> {
    parity_upto(Seq::new((pow2(p) - 1) as nat, |i: int| arrange_bit(plain, start, i)), p)
}

/// The concatenation of the codewords for all data groups of `plain` from
/// bit `start` on; each group carries `2^p - p - 1` data bits, the last one
/// padded with false.
pub open spec fn encode_blocks(plain: Seq<bool>, start: int, p: nat) -> Seq<bool>
    decreases plain.len() - start,
{
    if start < 0 || start >= plain.len() || pow2(p) < p + 2 {
        Seq::empty()
    } else {
        coded_block(plain, start, p) + encode_blocks(
            plain,
            if start + (pow2(p) - p - 1) <= plain.len() {
                start + (pow2(p) - p - 1)
            } else {
                plain.len() as int
            },
            p,
        )
    }
}

/// The concatenation of the corrected data groups of the codewords of
/// `code` from bit `start` on; a trailing group shorter than a codeword is
/// discarded.
pub open spec fn decode_blocks(code: Seq<bool>, start: int, p: nat) -> Seq<bool>
    decreases code.len() - start,
{
    if start < 0 || pow2(p) < 2 || start + pow2(p) - 1 > code.len() {
        Seq::empty()
    } else {
        data_bits(check_spec(code.subrange(start, start + pow2(p) - 1), p), 0) + decode_blocks(
            code,
            start + (pow2(p) - 1),
            p,
        )
    }
}

/// The syndrome is a sum of distinct masks below `2^p`, so it is below
/// `2^p` itself.
proof fn lemma_syndrome_bound(block: Seq<bool>, p: nat)
    ensures
        syndrome(block, p) < pow2(p),
    decreases p,
{
    if p == 0 {
        assert(pow2(0) == 1) by {
            vstd::arithmetic::power2::lemma2_to64();
        }
    } else {
        lemma_syndrome_bound(block, (p - 1) as nat);
        vstd::arithmetic::power2::lemma_pow2_unfold(p);
    }
}

proof fn lemma_data_bits_len(block: Seq<bool>, i: int)
    requires
        0 <= i <= block.len(),
    ensures
        data_bits(block, i).len() == num_data(block.len() as nat) - num_data(i as nat),
        num_data(i as nat) <= num_data(block.len() as nat),
    decreases block.len() - i,
{
    if i < block.len() {
        lemma_data_bits_len(block, i + 1);
    }
}

proof fn lemma_parity_slot_pow2(k: nat)
    ensures
        parity_slot(pow2(k)),
    decreases k,
{
    vstd::arithmetic::power2::lemma_pow2_pos(k);
    if k == 0 {
        assert(pow2(0) == 1) by {
            vstd::arithmetic::power2::lemma2_to64();
        }
    } else {
        lemma_parity_slot_pow2((k - 1) as nat);
        assert(pow2(k) == 2 * pow2((k - 1) as nat)) by {
            vstd::arithmetic::power2::lemma_pow2_unfold(k);
        }
        vstd::arithmetic::power2::lemma_pow2_pos((k - 1) as nat);
    }
}

proof fn lemma_parity_slot_is_pow2(j: nat)
    requires
        parity_slot(j),
    ensures
        exists|k: nat| j == pow2(k),
    decreases j,
{
    if j == 1 {
        assert(pow2(0) == 1) by {
            vstd::arithmetic::power2::lemma2_to64();
        }
        assert(j == pow2(0));
    } else {
        lemma_parity_slot_is_pow2(j / 2);
        let k = choose|k: nat| j / 2 == pow2(k);
        assert(pow2(k + 1) == 2 * pow2(k)) by {
            vstd::arithmetic::power2::lemma_pow2_unfold(k + 1);
        }
        assert(j == 2 * (j / 2));
        assert(j == pow2(k + 1));
    }
}

/// No position strictly between two consecutive powers of two is a parity
/// position.
proof fn lemma_parity_slot_gap(k: nat, j: nat)
    requires
        pow2(k) < j < pow2(k + 1),
    ensures
        !parity_slot(j),
{
    if parity_slot(j) {
        lemma_parity_slot_is_pow2(j);
        let m = choose|m: nat| j == pow2(m);
        if m <= k {
            if m < k {
                vstd::arithmetic::power2::lemma_pow2_strictly_increases(m, k);
            }
            assert(pow2(m) <= pow2(k));
        } else {
            if k + 1 < m {
                vstd::arithmetic::power2::lemma_pow2_strictly_increases(k + 1, m);
            }
            assert(pow2(k + 1) <= pow2(m));
        }
    }
}

proof fn lemma_num_data_range(a: nat, b: nat)
    requires
        a <= b,
        forall|j: nat| a < j <= b ==> !(#[trigger] parity_slot(j)),
    ensures
        num_data(b) == num_data(a) + (b - a),
    decreases b - a,
{
    if a < b {
        lemma_num_data_range(a, (b - 1) as nat);
    }
}

/// Among the positions `1 ..= 2^p - 1` exactly `p` are parity positions,
/// so `2^p - 1 - p` are data positions.
proof fn lemma_num_data_pow(p: nat)
    requires
        p >= 1,
    ensures
        num_data((pow2(p) - 1) as nat) == pow2(p) - 1 - p,
        pow2(p) >= p + 1,
    decreases p,
{
    vstd::arithmetic::power2::lemma_pow2_pos(p);
    if p == 1 {
        assert(pow2(1) == 2) by {
            vstd::arithmetic::power2::lemma2_to64();
        }
        assert(num_data(0) == 0);
        assert(num_data(1) == 0);
    } else {
        let k = (p - 1) as nat;
        lemma_num_data_pow(k);
        vstd::arithmetic::power2::lemma_pow2_unfold(p);
        vstd::arithmetic::power2::lemma_pow2_pos(k);
        let m1 = (pow2(k) - 1) as nat;
        // position 2^k is a parity position
        lemma_parity_slot_pow2(k);
        assert(num_data(pow2(k)) == num_data(m1));
        // everything after it up to 2^p - 1 is data
        assert forall|j: nat| pow2(k) < j <= (pow2(p) - 1) as nat implies !(#[trigger] parity_slot(
            j,
        )) by {
            lemma_parity_slot_gap(k, j);
        }
        lemma_num_data_range(pow2(k), (pow2(p) - 1) as nat);
    }
}

/// For `p >= 2` a codeword holds at least one data bit.
proof fn lemma_pow2_ge(p: nat)
    requires
        p >= 2,
    ensures
        pow2(p) >= p + 2,
    decreases p,
{
    if p == 2 {
        assert(pow2(2) == 4) by {
            vstd::arithmetic::power2::lemma2_to64();
        }
    } else {
        lemma_pow2_ge((p - 1) as nat);
        vstd::arithmetic::power2::lemma_pow2_unfold(p);
    }
}

/// The exec expression `1usize << p` computes `pow2(p)`.
proof fn lemma_shl_pow2(p: usize)
    requires
        p < 32,
    ensures
        1usize << p == pow2(p as nat),
        0 < pow2(p as nat) < usize::MAX,
{
    vstd::bits::lemma_usize_pow2_no_overflow(p as nat);
    vstd::bits::lemma_usize_shl_is_mul(1usize, p);
}

/// The exec test `m & j != 0` with mask `m == 2^n` reads bit `n` of `j`.
proof fn lemma_mask_test(j: usize, n: usize)
    requires
        n < 32,
    ensures
        (((1usize << n) & j) != 0) == has_bit(j as nat, n as nat),
{
    vstd::bits::lemma_usize_shr_is_div(j, n);
    assert((((1usize << n) & j) != 0) == ((j >> n) % 2 == 1)) by (bit_vector)
        requires
            n < 32,
    ;
}

proof fn lemma_has_bit_ge(j: nat, n: nat)
    requires
        has_bit(j, n),
    ensures
        j >= pow2(n),
{
    vstd::arithmetic::power2::lemma_pow2_pos(n);
    if j < pow2(n) {
        vstd::arithmetic::div_mod::lemma_fundamental_div_mod_converse(
            j as int,
            pow2(n) as int,
            0,
            j as int,
        );
    }
}

proof fn lemma_has_bit_pow2(m: nat, n: nat)
    ensures
        has_bit(pow2(m), n) == (m == n),
{
    vstd::arithmetic::power2::lemma_pow2_pos(m);
    vstd::arithmetic::power2::lemma_pow2_pos(n);
    if m == n {
        vstd::arithmetic::div_mod::lemma_div_by_self(pow2(n) as int);
    } else if m < n {
        vstd::arithmetic::power2::lemma_pow2_strictly_increases(m, n);
        vstd::arithmetic::div_mod::lemma_fundamental_div_mod_converse(
            pow2(m) as int,
            pow2(n) as int,
            0,
            pow2(m) as int,
        );
    } else {
        let d = (m - n) as nat;
        vstd::arithmetic::power2::lemma_pow2_adds(d, n);
        vstd::arithmetic::power2::lemma_pow2_pos(d);
        vstd::arithmetic::mul::lemma_mul_is_commutative(pow2(d) as int, pow2(n) as int);
        vstd::arithmetic::div_mod::lemma_div_multiples_vanish(pow2(d) as int, pow2(n) as int);
        assert(pow2(m) / pow2(n) == pow2(d));
        vstd::arithmetic::power2::lemma_pow2_unfold(d);
        let h = pow2((d - 1) as nat) as int;
        vstd::arithmetic::div_mod::lemma_fundamental_div_mod_converse(2 * h, 2, h, 0);
        assert(pow2(d) % 2 == 0);
    }
}

/// The bits of `j` weighted by their masks sum back to `j` modulo `2^p`.
spec fn bits_sum(j: nat, p: nat) -> nat
    decreases p,
{
    if p == 0 {
        0
    } else {
        bits_sum(j, (p - 1) as nat) + if has_bit(j, (p - 1) as nat) {
            pow2((p - 1) as nat)
        } else {
            0nat
        }
    }
}

proof fn lemma_bits_sum_mod(j: nat, p: nat)
    ensures
        bits_sum(j, p) == j % pow2(p),
    decreases p,
{
    vstd::arithmetic::power2::lemma_pow2_pos(p);
    let ji = j as int;
    if p == 0 {
        assert(pow2(0) == 1) by {
            vstd::arithmetic::power2::lemma2_to64();
        }
        vstd::arithmetic::div_mod::lemma_fundamental_div_mod_converse(ji, 1, ji, 0);
    } else {
        let k = (p - 1) as nat;
        lemma_bits_sum_mod(j, k);
        vstd::arithmetic::power2::lemma_pow2_pos(k);
        vstd::arithmetic::power2::lemma_pow2_unfold(p);
        let m = pow2(k) as int;
        vstd::arithmetic::div_mod::lemma_fundamental_div_mod(ji, m);
        vstd::arithmetic::div_mod::lemma_mod_bound(ji, m);
        vstd::arithmetic::div_mod::lemma_fundamental_div_mod(ji / m, 2);
        vstd::arithmetic::div_mod::lemma_mod_bound(ji / m, 2);
        let q2 = (ji / m) / 2;
        let b = (ji / m) % 2;
        let r = m * b + ji % m;
        assert(ji == (2 * m) * q2 + r) by (nonlinear_arith)
            requires
                ji == m * (ji / m) + ji % m,
                ji / m == 2 * q2 + b,
                r == m * b + ji % m,
        ;
        if b == 0 {
            assert(r == ji % m) by (nonlinear_arith)
                requires
                    r == m * b + ji % m,
                    b == 0,
            ;
        } else {
            assert(b == 1);
            assert(r == m + ji % m) by (nonlinear_arith)
                requires
                    r == m * b + ji % m,
                    b == 1,
            ;
        }
        assert(0 <= r < 2 * m);
        vstd::arithmetic::div_mod::lemma_fundamental_div_mod_converse(ji, 2 * m, q2, r);
        assert(j % pow2(p) == r);
        assert(has_bit(j, k) == (b == 1));
    }
}

proof fn lemma_fold_agree(b1: Seq<bool>, b2: Seq<bool>, n: nat, i: int)
    requires
        b1.len() == b2.len(),
        forall|t: int|
            #![trigger b1[t]]
            i <= t < b1.len() && has_bit((t + 1) as nat, n) ==> b1[t] == b2[t],
    ensures
        parity_fold(b1, n, i) == parity_fold(b2, n, i),
    decreases b1.len() - i,
{
    if 0 <= i < b1.len() {
        lemma_fold_agree(b1, b2, n, i + 1);
    }
}

proof fn lemma_fold_flip(s: Seq<bool>, n: nat, i: int, e: int)
    requires
        0 <= e < s.len(),
        i >= 0,
    ensures
        parity_fold(s.update(e, !s[e]), n, i) == (parity_fold(s, n, i) != (i <= e && has_bit(
            (e + 1) as nat,
            n,
        ))),
    decreases s.len() - i,
{
    let f = s.update(e, !s[e]);
    if i >= s.len() {
    } else if i == e {
        assert forall|t: int|
            #![trigger f[t]]
            i + 1 <= t < f.len() && has_bit((t + 1) as nat, n) implies f[t] == s[t] by {}
        lemma_fold_agree(f, s, n, i + 1);
    } else {
        lemma_fold_flip(s, n, i + 1, e);
    }
}

/// Parity positions in `1 ..= 2^p - 1` all exist in a codeword of that
/// length.
proof fn lemma_slots_in_range(p: nat)
    requires
        p >= 1,
    ensures
        forall|n: nat| n < p ==> #[trigger] pow2(n) <= pow2(p) - 1,
{
    assert forall|n: nat| n < p implies #[trigger] pow2(n) <= pow2(p) - 1 by {
        if n < p - 1 {
            vstd::arithmetic::power2::lemma_pow2_strictly_increases(n, (p - 1) as nat);
        }
        vstd::arithmetic::power2::lemma_pow2_unfold(p);
        vstd::arithmetic::power2::lemma_pow2_pos((p - 1) as nat);
    }
}

proof fn lemma_parity_upto_len(block: Seq<bool>, p: nat)
    requires
        forall|n: nat| n < p ==> #[trigger] pow2(n) <= block.len(),
    ensures
        parity_upto(block, p).len() == block.len(),
    decreases p,
{
    if p > 0 {
        lemma_parity_upto_len(block, (p - 1) as nat);
        vstd::arithmetic::power2::lemma_pow2_pos((p - 1) as nat);
    }
}

/// Filling in the parity bits leaves every data position unchanged.
proof fn lemma_parity_upto_data(block: Seq<bool>, p: nat, i: int)
    requires
        forall|n: nat| n < p ==> #[trigger] pow2(n) <= block.len(),
        0 <= i < block.len(),
        !parity_slot((i + 1) as nat),
    ensures
        parity_upto(block, p)[i] == block[i],
    decreases p,
{
    if p > 0 {
        let k = (p - 1) as nat;
        lemma_parity_upto_data(block, k, i);
        lemma_parity_upto_len(block, k);
        lemma_parity_slot_pow2(k);
        vstd::arithmetic::power2::lemma_pow2_pos(k);
        assert(i + 1 != pow2(k));
    }
}

/// A parity check reads only data positions, so two blocks that agree on
/// every data position have equal checks.
proof fn lemma_check_parity_data_agree(b1: Seq<bool>, b2: Seq<bool>, n: nat)
    requires
        b1.len() == b2.len(),
        forall|t: int|
            #![trigger b1[t]]
            0 <= t < b1.len() && !parity_slot((t + 1) as nat) ==> b1[t] == b2[t],
    ensures
        check_parity(b1, n) == check_parity(b2, n),
{
    vstd::arithmetic::power2::lemma_pow2_pos(n);
    assert forall|t: int|
        #![trigger b1[t]]
        pow2(n) <= t < b1.len() && has_bit((t + 1) as nat, n) implies b1[t] == b2[t] by {
        if parity_slot((t + 1) as nat) {
            lemma_parity_slot_is_pow2((t + 1) as nat);
            let m = choose|m: nat| (t + 1) as nat == pow2(m);
            lemma_has_bit_pow2(m, n);
        }
    }
    lemma_fold_agree(b1, b2, n, pow2(n) as int);
}

/// The parity bit stored at position `2^n` is the check computed over the
/// original block: the checks stored earlier live at positions the check
/// `n` never reads.
proof fn lemma_parity_upto_stored(block: Seq<bool>, p: nat, n: nat)
    requires
        forall|n2: nat| n2 < p ==> #[trigger] pow2(n2) <= block.len(),
        n < p,
    ensures
        parity_upto(block, p)[pow2(n) - 1] == check_parity(block, n),
    decreases p,
{
    let k = (p - 1) as nat;
    lemma_parity_upto_len(block, k);
    vstd::arithmetic::power2::lemma_pow2_pos(k);
    vstd::arithmetic::power2::lemma_pow2_pos(n);
    if n == k {
        let partial = parity_upto(block, k);
        assert forall|t: int|
            #![trigger partial[t]]
            0 <= t < partial.len() && !parity_slot((t + 1) as nat) implies partial[t]
            == block[t] by {
            lemma_parity_upto_data(block, k, t);
        }
        lemma_check_parity_data_agree(partial, block, n);
    } else {
        lemma_parity_upto_stored(block, k, n);
        vstd::arithmetic::power2::lemma_pow2_strictly_increases(n, k);
    }
}

/// A freshly coded block is parity-consistent, and its data positions are
/// those of the block it was computed from.
proof fn lemma_coded_parity_ok(block: Seq<bool>, p: nat)
    requires
        p >= 1,
        block.len() == pow2(p) - 1,
    ensures
        parity_upto(block, p).len() == block.len(),
        parity_ok(parity_upto(block, p), p),
        forall|i: int|
            #![trigger parity_upto(block, p)[i]]
            0 <= i < block.len() && !parity_slot((i + 1) as nat) ==> parity_upto(block, p)[i]
                == block[i],
{
    lemma_slots_in_range(p);
    lemma_parity_upto_len(block, p);
    let coded = parity_upto(block, p);
    assert forall|i: int|
        #![trigger coded[i]]
        0 <= i < block.len() && !parity_slot((i + 1) as nat) implies coded[i] == block[i] by {
        lemma_parity_upto_data(block, p, i);
    }
    assert forall|n: nat| n < p implies #[trigger] check_parity(coded, n) == coded[pow2(n)
        - 1] by {
        lemma_parity_upto_stored(block, p, n);
        lemma_check_parity_data_agree(coded, block, n);
    }
}

/// Consistent parity checks mean a zero syndrome.
proof fn lemma_syndrome_zero(block: Seq<bool>, p: nat)
    requires
        parity_ok(block, p),
    ensures
        syndrome(block, p) == 0,
    decreases p,
{
    if p > 0 {
        assert(parity_ok(block, (p - 1) as nat));
        lemma_syndrome_zero(block, (p - 1) as nat);
    }
}

proof fn lemma_syndrome_by_bits(f: Seq<bool>, j: nat, p: nat)
    requires
        forall|n: nat|
            n < p ==> ((#[trigger] check_parity(f, n)) != f[pow2(n) - 1]) == has_bit(j, n),
    ensures
        syndrome(f, p) == bits_sum(j, p),
    decreases p,
{
    if p > 0 {
        lemma_syndrome_by_bits(f, j, (p - 1) as nat);
    }
}

/// Single-bit-flip correction: flipping any one bit of a parity-consistent
/// codeword and then checking it restores the original codeword, because
/// the disagreeing checks are exactly the bits of the flipped position and
/// their masks sum back to it.
pub proof fn lemma_single_flip_corrects(block: Seq<bool>, p: nat, e: int)
    requires
        1 <= p,
        block.len() == pow2(p) - 1,
        parity_ok(block, p),
        0 <= e < block.len(),
    ensures
        check_spec(block.update(e, !block[e]), p) == block,
{
    let f = block.update(e, !block[e]);
    let j = (e + 1) as nat;
    vstd::arithmetic::power2::lemma_pow2_pos(p);
    lemma_slots_in_range(p);
    assert forall|n: nat|
        n < p implies ((#[trigger] check_parity(f, n)) != f[pow2(n) - 1]) == has_bit(j, n) by {
        vstd::arithmetic::power2::lemma_pow2_pos(n);
        lemma_fold_flip(block, n, pow2(n) as int, e);
        assert(check_parity(f, n) == (check_parity(block, n) != (pow2(n) <= e && has_bit(j, n))));
        if parity_slot(j) {
            lemma_parity_slot_is_pow2(j);
            let m = choose|m: nat| j == pow2(m);
            lemma_has_bit_pow2(m, n);
            if m == n {
                assert(e == pow2(n) - 1);
                assert(!(pow2(n) <= e));
                assert(f[pow2(n) - 1] == !block[pow2(n) - 1]);
            } else {
                if m < n {
                    vstd::arithmetic::power2::lemma_pow2_strictly_increases(m, n);
                } else {
                    vstd::arithmetic::power2::lemma_pow2_strictly_increases(n, m);
                }
                assert(e != pow2(n) - 1);
                assert(f[pow2(n) - 1] == block[pow2(n) - 1]);
            }
        } else {
            lemma_parity_slot_pow2(n);
            assert(j != pow2(n));
            assert(e != pow2(n) - 1);
            assert(f[pow2(n) - 1] == block[pow2(n) - 1]);
            if has_bit(j, n) {
                lemma_has_bit_ge(j, n);
                assert(pow2(n) <= e);
            }
        }
    }
    lemma_syndrome_by_bits(f, j, p);
    lemma_bits_sum_mod(j, p);
    vstd::arithmetic::div_mod::lemma_small_mod(j, pow2(p));
    assert(syndrome(f, p) == j);
    assert(check_spec(f, p) =~= block);
}

/// The bit of `plain` at `idx`, with positions past the end reading as
/// false.
pub open spec fn padded(plain: Seq<bool>, idx: int) -> bool {
    if 0 <= idx < plain.len() {
        plain[idx]
    } else {
        false
    }
}

/// The data groups of `plain` from bit `start` on, each `2^p - p - 1` bits
/// long, the last one padded with false.
pub open spec fn padded_groups(plain: Seq<bool>, start: int, p: nat) -> Seq<bool>
    decreases plain.len() - start,
{
    if start < 0 || start >= plain.len() || pow2(p) < p + 2 {
        Seq::empty()
    } else {
        Seq::new((pow2(p) - p - 1) as nat, |r: int| padded(plain, start + r)) + padded_groups(
            plain,
            if start + (pow2(p) - p - 1) <= plain.len() {
                start + (pow2(p) - p - 1)
            } else {
                plain.len() as int
            },
            p,
        )
    }
}

proof fn lemma_data_bits_agree(b1: Seq<bool>, b2: Seq<bool>, i: int)
    requires
        b1.len() == b2.len(),
        forall|t: int|
            #![trigger b1[t]]
            0 <= t < b1.len() && !parity_slot((t + 1) as nat) ==> b1[t] == b2[t],
    ensures
        data_bits(b1, i) == data_bits(b2, i),
    decreases b1.len() - i,
{
    if 0 <= i < b1.len() {
        lemma_data_bits_agree(b1, b2, i + 1);
    }
}

/// The data positions of an arranged block read the plaintext in order
/// from `start`, padded with false past its end.
proof fn lemma_data_bits_arrange(plain: Seq<bool>, start: int, arr: Seq<bool>, i: int)
    requires
        0 <= start,
        forall|t: int| #![trigger arr[t]] 0 <= t < arr.len() ==> arr[t] == arrange_bit(
            plain,
            start,
            t,
        ),
        0 <= i <= arr.len(),
    ensures
        data_bits(arr, i) == Seq::new(
            (num_data(arr.len() as nat) - num_data(i as nat)) as nat,
            |r: int| padded(plain, start + num_data(i as nat) + r),
        ),
    decreases arr.len() - i,
{
    lemma_data_bits_len(arr, i);
    let target = Seq::new(
        (num_data(arr.len() as nat) - num_data(i as nat)) as nat,
        |r: int| padded(plain, start + num_data(i as nat) + r),
    );
    if i < arr.len() {
        lemma_data_bits_arrange(plain, start, arr, i + 1);
        if parity_slot((i + 1) as nat) {
            assert(num_data((i + 1) as nat) == num_data(i as nat));
            assert(data_bits(arr, i) =~= target);
        } else {
            assert(num_data((i + 1) as nat) == num_data(i as nat) + 1);
            assert(arr[i] == padded(plain, start + num_data(i as nat)));
            assert(data_bits(arr, i) =~= target);
        }
    } else {
        assert(data_bits(arr, i) =~= target);
    }
}

/// One block, there and back: arranging a data group, filling in its
/// parity bits, checking the untouched codeword and stripping the parity
/// positions returns exactly the group that went in.
proof fn lemma_block_round_trip(plain: Seq<bool>, start: int, p: nat)
    requires
        2 <= p,
        0 <= start,
    ensures
        coded_block(plain, start, p).len() == pow2(p) - 1,
        data_bits(check_spec(coded_block(plain, start, p), p), 0) == Seq::new(
            (pow2(p) - p - 1) as nat,
            |r: int| padded(plain, start + r),
        ),
{
    lemma_pow2_ge(p);
    lemma_num_data_pow(p);
    let arr = Seq::new((pow2(p) - 1) as nat, |i: int| arrange_bit(plain, start, i));
    lemma_coded_parity_ok(arr, p);
    let coded = parity_upto(arr, p);
    lemma_syndrome_zero(coded, p);
    assert(check_spec(coded, p) == coded);
    lemma_data_bits_agree(coded, arr, 0);
    lemma_data_bits_arrange(plain, start, arr, 0);
    assert(num_data(0) == 0);
    assert(data_bits(arr, 0) =~= Seq::new(
        (pow2(p) - p - 1) as nat,
        |r: int| padded(plain, start + r),
    ));
}

/// Skipping a whole number of leading bits shifts the decoding, so a
/// decode of a concatenation can peel its front off.
proof fn lemma_decode_prepend(front: Seq<bool>, rest: Seq<bool>, start: int, p: nat)
    requires
        0 <= start,
    ensures
        decode_blocks(front + rest, front.len() + start, p) == decode_blocks(rest, start, p),
    decreases rest.len() - start,
{
    let c = front + rest;
    let fl = front.len() as int;
    vstd::arithmetic::power2::lemma_pow2_pos(p);
    let li = pow2(p) - 1;
    if pow2(p) < 2 || start + li > rest.len() {
        assert(decode_blocks(c, fl + start, p) == Seq::<bool>::empty());
        assert(decode_blocks(rest, start, p) == Seq::<bool>::empty());
    } else {
        assert(c.subrange(fl + start, fl + start + li) =~= rest.subrange(start, start + li));
        lemma_decode_prepend(front, rest, start + li, p);
    }
}

/// Decoding an encoded stream, with any stub of fewer bits than one
/// codeword after it, recovers every data group.
proof fn lemma_decode_encode(plain: Seq<bool>, extra: Seq<bool>, start: int, p: nat)
    requires
        2 <= p,
        0 <= start <= plain.len(),
        extra.len() < pow2(p) - 1,
    ensures
        decode_blocks(encode_blocks(plain, start, p) + extra, 0, p) == padded_groups(
            plain,
            start,
            p,
        ),
    decreases plain.len() - start,
{
    lemma_pow2_ge(p);
    let enc = encode_blocks(plain, start, p);
    let c = enc + extra;
    let li = pow2(p) - 1;
    if start >= plain.len() {
        assert(enc =~= Seq::<bool>::empty());
        assert(c =~= extra);
        assert(decode_blocks(extra, 0, p) == Seq::<bool>::empty());
        assert(decode_blocks(c, 0, p) == Seq::<bool>::empty());
    } else {
        lemma_block_round_trip(plain, start, p);
        let blk = coded_block(plain, start, p);
        let next = if start + (pow2(p) - p - 1) <= plain.len() {
            start + (pow2(p) - p - 1)
        } else {
            plain.len() as int
        };
        let rest = encode_blocks(plain, next, p) + extra;
        assert(enc == blk + encode_blocks(plain, next, p));
        assert(c =~= blk + rest);
        assert(c.len() >= li);
        assert(c.subrange(0, li) =~= blk);
        lemma_decode_prepend(blk, rest, 0, p);
        assert(decode_blocks(blk + rest, li, p) == decode_blocks(rest, 0, p));
        lemma_decode_encode(plain, extra, next, p);
        assert(decode_blocks(c, 0, p) == data_bits(check_spec(blk, p), 0) + decode_blocks(
            rest,
            0,
            p,
        ));
    }
}

/// The decoded stream is the plaintext itself, padded with false to a
/// whole number of data groups.
proof fn lemma_padded_groups(plain: Seq<bool>, start: int, p: nat)
    requires
        2 <= p,
        0 <= start <= plain.len(),
    ensures
        plain.len() - start <= padded_groups(plain, start, p).len() < plain.len() - start + (pow2(
            p,
        ) - p - 1),
        (padded_groups(plain, start, p).len() as int) % (pow2(p) as int - p - 1) == 0,
        forall|r: int|
            0 <= r < padded_groups(plain, start, p).len()
                ==> #[trigger] padded_groups(plain, start, p)[r] == padded(plain, start + r),
    decreases plain.len() - start,
{
    lemma_pow2_ge(p);
    let d = (pow2(p) - p - 1) as int;
    let pg = padded_groups(plain, start, p);
    if start >= plain.len() {
        assert(pg.len() == 0);
        assert(0int % d == 0) by (nonlinear_arith)
            requires
                d > 0,
        ;
    } else {
        let next = if start + d <= plain.len() {
            start + d
        } else {
            plain.len() as int
        };
        lemma_padded_groups(plain, next, p);
        let tail = padded_groups(plain, next, p);
        assert(pg == Seq::new(d as nat, |r: int| padded(plain, start + r)) + tail);
        if next == plain.len() && start + d > plain.len() {
            assert(tail.len() == 0);
            assert(pg.len() == d);
            assert(d % d == 0) by (nonlinear_arith)
                requires
                    d > 0,
            ;
            assert forall|r: int| 0 <= r < pg.len() implies #[trigger] pg[r] == padded(
                plain,
                start + r,
            ) by {}
        } else {
            assert(next == start + d);
            assert(pg.len() == d + tail.len());
            assert((d + tail.len()) % d == 0) by (nonlinear_arith)
                requires
                    d > 0,
                    (tail.len() as int) % d == 0,
            ;
            assert forall|r: int| 0 <= r < pg.len() implies #[trigger] pg[r] == padded(
                plain,
                start + r,
            ) by {
                if r >= d {
                    assert(tail[r - d] == padded(plain, next + (r - d)));
                }
            }
        }
    }
}

/// When the data-group size divides the remaining bit count, encoding
/// produces exactly one codeword per group.
proof fn lemma_encode_len_exact(plain: Seq<bool>, start: int, p: nat)
    requires
        2 <= p,
        0 <= start <= plain.len(),
        (plain.len() - start) % (pow2(p) - p - 1) == 0,
    ensures
        encode_blocks(plain, start, p).len() == (pow2(p) - 1) * ((plain.len() - start) / (pow2(p)
            - p - 1)),
    decreases plain.len() - start,
{
    lemma_pow2_ge(p);
    let d = (pow2(p) - p - 1) as int;
    let li = (pow2(p) - 1) as int;
    let m = plain.len() - start;
    if start >= plain.len() {
        assert(m == 0);
        assert(m / d == 0) by (nonlinear_arith)
            requires
                d > 0,
                m == 0,
        ;
        assert(li * (m / d) == 0) by (nonlinear_arith)
            requires
                m / d == 0,
        ;
    } else {
        assert(m >= d) by {
            vstd::arithmetic::div_mod::lemma_mod_bound(m, d);
            if m < d {
                vstd::arithmetic::div_mod::lemma_small_mod(m as nat, d as nat);
            }
        }
        let next = start + d;
        assert((plain.len() - next) % d == 0) by {
            vstd::arithmetic::div_mod::lemma_mod_sub_multiples_vanish(m, d);
        }
        lemma_encode_len_exact(plain, next, p);
        lemma_block_round_trip(plain, start, p);
        assert(encode_blocks(plain, start, p).len() == li + li * ((m - d) / d));
        assert((m - d) / d == m / d - 1) by {
            let q = m / d;
            vstd::arithmetic::div_mod::lemma_fundamental_div_mod(m, d);
            assert(m - d == d * (q - 1)) by (nonlinear_arith)
                requires
                    m == d * q,
            ;
            vstd::arithmetic::div_mod::lemma_div_multiples_vanish(q - 1, d);
        }
        assert(li + li * (m / d - 1) == li * (m / d)) by (nonlinear_arith);
    }
}

/// Single-bit-flip correction for encoded codewords: every block that
/// encoding produces is parity-consistent, so flipping any one of its bits
/// and checking it restores the codeword, and with it the data group.
pub proof fn lemma_codeword_flip_corrects(plain: Seq<bool>, start: int, p: nat, e: int)
    requires
        2 <= p,
        0 <= start,
        0 <= e < pow2(p) - 1,
    ensures
        ({
            let cw = coded_block(plain, start, p);
            check_spec(cw.update(e, !cw[e]), p) == cw
        }),
{
    let arr = Seq::new((pow2(p) - 1) as nat, |i: int| arrange_bit(plain, start, i));
    lemma_coded_parity_ok(arr, p);
    lemma_single_flip_corrects(coded_block(plain, start, p), p, e);
}

/// The zero padding that packing to bytes appends to a coded stream is
/// shorter than one codeword.
proof fn lemma_pad_shorter_than_block(v: Seq<u8>, p: nat)
    requires
        2 <= p,
    ensures
        ({
            let el = encode_blocks(crate::bitvec::bytes_to_bits(v), 0, p).len() as int;
            el <= 8 * crate::bitvec::bytes_for_bits(
                encode_blocks(crate::bitvec::bytes_to_bits(v), 0, p).len(),
            ) < el + (pow2(p) as int - 1)
        }),
{
    lemma_pow2_ge(p);
    vstd::arithmetic::power2::lemma2_to64();
    let w = v.len() as int;
    let plain = crate::bitvec::bytes_to_bits(v);
    let enc = encode_blocks(plain, 0, p);
    let el = enc.len() as int;
    let cb = crate::bitvec::bytes_for_bits(enc.len()) as int;
    vstd::arithmetic::div_mod::lemma_fundamental_div_mod(el, 8);
    vstd::arithmetic::div_mod::lemma_mod_bound(el, 8);
    assert(el <= 8 * cb < el + 8);
    if p == 2 {
        // every data group is one bit, so the coded length is a multiple
        // of 24 bits and the byte padding is empty
        vstd::arithmetic::div_mod::lemma_fundamental_div_mod_converse(8 * w, 1, 8 * w, 0);
        lemma_encode_len_exact(plain, 0, p);
        assert(el == 3 * (8 * w));
        assert(el % 8 == 0) by {
            vstd::arithmetic::div_mod::lemma_fundamental_div_mod_converse(24 * w, 8, 3 * w, 0);
        }
        assert(8 * cb == el);
    } else if p == 3 {
        // groups are four bits, so the coded length is an even number of
        // 7-bit codewords and the even byte padding can never reach 7
        vstd::arithmetic::div_mod::lemma_fundamental_div_mod_converse(8 * w, 4, 2 * w, 0);
        lemma_encode_len_exact(plain, 0, p);
        assert(8 * w / 4 == 2 * w);
        assert(el == 7 * (2 * w));
        assert(el % 2 == 0) by {
            vstd::arithmetic::div_mod::lemma_fundamental_div_mod_converse(14 * w, 2, 7 * w, 0);
        }
        assert((8 * cb) % 2 == 0) by {
            vstd::arithmetic::div_mod::lemma_fundamental_div_mod_converse(8 * cb, 2, 4 * cb, 0);
        }
        assert((8 * cb - el) % 2 == 0) by (nonlinear_arith)
            requires
                (8 * cb) % 2 == 0,
                el % 2 == 0,
        ;
        assert(8 * cb - el != 7);
    } else {
        // a codeword has at least 15 bits, more than any byte padding
        if p > 4 {
            vstd::arithmetic::power2::lemma_pow2_strictly_increases(4, p);
        }
        assert(pow2(p) >= 16);
    }
}

/// A byte of the decoded stream that lies inside the plaintext equals the
/// corresponding plaintext byte.
proof fn lemma_decoded_prefix_byte(plain: Seq<bool>, d: Seq<bool>, i: int)
    requires
        plain.len() <= d.len(),
        forall|r: int| 0 <= r < d.len() ==> #[trigger] d[r] == padded(plain, r),
        0 <= i,
        8 * i + 8 <= plain.len(),
    ensures
        crate::bitvec::byte_from_bits(d, i) == crate::bitvec::byte_from_bits(plain, i),
{
    assert(d[8 * i + 0] == padded(plain, 8 * i + 0));
    assert(d[8 * i + 1] == padded(plain, 8 * i + 1));
    assert(d[8 * i + 2] == padded(plain, 8 * i + 2));
    assert(d[8 * i + 3] == padded(plain, 8 * i + 3));
    assert(d[8 * i + 4] == padded(plain, 8 * i + 4));
    assert(d[8 * i + 5] == padded(plain, 8 * i + 5));
    assert(d[8 * i + 6] == padded(plain, 8 * i + 6));
    assert(d[8 * i + 7] == padded(plain, 8 * i + 7));
    crate::bitvec::lemma_byte_window(d, plain, i);
}

/// A byte of the decoded stream that lies wholly past the plaintext is
/// zero, because the final data group was padded with false.
proof fn lemma_decoded_zero_byte(plain: Seq<bool>, d: Seq<bool>, i: int)
    requires
        plain.len() <= d.len(),
        forall|r: int| 0 <= r < d.len() ==> #[trigger] d[r] == padded(plain, r),
        0 <= i,
        plain.len() <= 8 * i,
    ensures
        crate::bitvec::byte_from_bits(d, i) == 0,
{
    if 8 * i + 0 < d.len() {
        assert(d[8 * i + 0] == padded(plain, 8 * i + 0));
    }
    if 8 * i + 1 < d.len() {
        assert(d[8 * i + 1] == padded(plain, 8 * i + 1));
    }
    if 8 * i + 2 < d.len() {
        assert(d[8 * i + 2] == padded(plain, 8 * i + 2));
    }
    if 8 * i + 3 < d.len() {
        assert(d[8 * i + 3] == padded(plain, 8 * i + 3));
    }
    if 8 * i + 4 < d.len() {
        assert(d[8 * i + 4] == padded(plain, 8 * i + 4));
    }
    if 8 * i + 5 < d.len() {
        assert(d[8 * i + 5] == padded(plain, 8 * i + 5));
    }
    if 8 * i + 6 < d.len() {
        assert(d[8 * i + 6] == padded(plain, 8 * i + 6));
    }
    if 8 * i + 7 < d.len() {
        assert(d[8 * i + 7] == padded(plain, 8 * i + 7));
    }
    crate::bitvec::lemma_byte_zeros(d, i);
}

/// Round trip: decoding an uncorrupted encoding recovers every input
/// byte.  Because the padding of the final data group is not recorded, the
/// decoded stream may carry extra zero bytes after the input; it is the
/// input exactly when the data-group size divides the input bit count.
pub proof fn lemma_round_trip(v: Seq<u8>, p: nat)
    requires
        2 <= p,
    ensures
        ({
            let decoded = crate::bitvec::bits_to_bytes(
                decode_blocks(
                    crate::bitvec::bytes_to_bits(
                        crate::bitvec::bits_to_bytes(
                            encode_blocks(crate::bitvec::bytes_to_bits(v), 0, p),
                        ),
                    ),
                    0,
                    p,
                ),
            );
            &&& decoded.len() >= v.len()
            &&& decoded.subrange(0, v.len() as int) == v
            &&& forall|i: int| v.len() <= i < decoded.len() ==> decoded[i] == 0
            &&& ((8 * v.len()) as int % (pow2(p) as int - p - 1) == 0 ==> decoded == v)
        }),
{
    lemma_pow2_ge(p);
    let w = v.len() as int;
    let dgs = pow2(p) as int - p - 1;
    let plain = crate::bitvec::bytes_to_bits(v);
    let enc = encode_blocks(plain, 0, p);
    let encbytes = crate::bitvec::bits_to_bytes(enc);
    let c = crate::bitvec::bytes_to_bits(encbytes);
    crate::bitvec::lemma_bits_unpack(enc);
    let el = enc.len() as int;
    let extra = c.subrange(el, c.len() as int);
    assert(c =~= enc + extra);
    lemma_pad_shorter_than_block(v, p);
    assert(extra.len() < pow2(p) - 1);
    lemma_decode_encode(plain, extra, 0, p);
    lemma_padded_groups(plain, 0, p);
    let d = padded_groups(plain, 0, p);
    assert(decode_blocks(c, 0, p) == d);
    assert(8 * w <= d.len() < 8 * w + dgs);
    let decoded = crate::bitvec::bits_to_bytes(d);
    assert(decoded.len() == crate::bitvec::bytes_for_bits(d.len()));
    assert(decoded.len() >= v.len()) by {
        vstd::arithmetic::div_mod::lemma_div_is_ordered(8 * w, d.len() as int, 8);
        vstd::arithmetic::div_mod::lemma_fundamental_div_mod_converse(8 * w, 8, w, 0);
    }
    crate::bitvec::lemma_bytes_round_trip(v);
    assert forall|i: int| 0 <= i < w implies decoded[i] == v[i] by {
        lemma_decoded_prefix_byte(plain, d, i);
        assert(crate::bitvec::bits_to_bytes(plain)[i] == v[i]);
    }
    assert(decoded.subrange(0, w) =~= v);
    assert forall|i: int| w <= i < decoded.len() implies decoded[i] == 0 by {
        lemma_decoded_zero_byte(plain, d, i);
    }
    if (8 * v.len()) as int % dgs == 0 {
        assert(d.len() as int == 8 * w) by {
            let dl = d.len() as int;
            vstd::arithmetic::div_mod::lemma_fundamental_div_mod(dl, dgs);
            vstd::arithmetic::div_mod::lemma_fundamental_div_mod(8 * w, dgs);
            let qa = dl / dgs;
            let qb = 8 * w / dgs;
            assert(dl == dgs * qa && 8 * w == dgs * qb);
            assert(dl == 8 * w) by (nonlinear_arith)
                requires
                    dl == dgs * qa,
                    8 * w == dgs * qb,
                    8 * w <= dl < 8 * w + dgs,
                    dgs > 0,
            ;
        }
        assert(d =~= plain);
        assert(decoded == v);
    }
}

/// Tests whether `n` is a power of two by the arithmetic trick
/// `n & (n - 1) == 0`.
pub fn is_power_of_two(n: usize) -> (r: bool)
    requires
        n >= 1,
    ensures
        r == parity_slot(n as nat),
{
    proof {
        lemma_pow2_trick(n);
    }
    (n & (n - 1)) == 0
}

/// Copies `myself` and `other` into one fresh buffer, `myself`'s bits
/// first.
pub fn append(myself: BitVec, other: BitVec) -> (r: BitVec)
    requires
        myself.wf(),
        other.wf(),
        myself@.len() + other@.len() <= usize::MAX,
    ensures
        r.wf(),
        r@ == myself@ + other@,
{
    let a = myself.len();
    let b = other.len();
    let mut result = BitVec::from_elem(a + b, false);
    let mut i: usize = 0;
    while i < a
        invariant
            myself.wf(),
            other.wf(),
            result.wf(),
            a == myself@.len(),
            b == other@.len(),
            a + b <= usize::MAX,
            result@.len() == a + b,
            i <= a,
            forall|t: int| 0 <= t < i ==> result@[t] == myself@[t],
        decreases a - i,
    {
        let bit = match myself.get(i) {
            Some(x) => x,
            None => false,
        };
        result.set(i, bit);
        i = i + 1;
    }
    let mut j: usize = 0;
    while j < b
        invariant
            myself.wf(),
            other.wf(),
            result.wf(),
            a == myself@.len(),
            b == other@.len(),
            a + b <= usize::MAX,
            result@.len() == a + b,
            j <= b,
            forall|t: int| 0 <= t < a ==> result@[t] == myself@[t],
            forall|t: int| 0 <= t < j ==> result@[a + t] == other@[t],
        decreases b - j,
    {
        let bit = match other.get(j) {
            Some(x) => x,
            None => false,
        };
        result.set(a + j, bit);
        j = j + 1;
    }
    proof {
        assert(result@ =~= myself@ + other@);
    }
    result
}

/// Recomputes parity check `n` over the block, starting at position `2^n`
/// (0-indexed) as the canonical check loop does.
fn compute_parity(block: &BitVec, n: usize, p: usize) -> (r: bool)
    requires
        block.wf(),
        n < p,
        p < 32,
        block@.len() == pow2(p as nat) - 1,
    ensures
        r == check_parity(block@, n as nat),
{
    let pindex = 1usize << n;
    proof {
        lemma_shl_pow2(n);
        vstd::arithmetic::power2::lemma_pow2_strictly_increases(n as nat, p as nat);
    }
    let len = block.len();
    let mut parity = false;
    let mut i = pindex;
    while i < len
        invariant
            block.wf(),
            n < p < 32,
            len == block@.len(),
            len == pow2(p as nat) - 1,
            pindex == pow2(n as nat),
            pindex <= i <= len,
            check_parity(block@, n as nat) == (parity != parity_fold(block@, n as nat, i as int)),
        decreases len - i,
    {
        proof {
            lemma_shl_pow2(n);
            lemma_mask_test((i + 1) as usize, n);
        }
        if (pindex & (i + 1)) != 0 {
            let bit = match block.get(i) {
                Some(x) => x,
                None => false,
            };
            parity = bit != parity;
        }
        i = i + 1;
    }
    parity
}

/// Recomputes the `p` parity checks of a corrupted codeword, accumulates
/// the masks of the disagreeing checks into a syndrome, and flips the bit
/// the syndrome names, if any.
pub fn check(block: BitVec, p: usize) -> (r: BitVec)
    requires
        block.wf(),
        1 <= p < 32,
        block@.len() == pow2(p as nat) - 1,
    ensures
        r.wf(),
        r@ == check_spec(block@, p as nat),
{
    let mut block = block;
    let mut errindex: usize = 0;
    let mut n: usize = 0;
    proof {
        lemma_shl_pow2(p);
        vstd::arithmetic::power2::lemma2_to64();
    }
    while n < p
        invariant
            block.wf(),
            1 <= p < 32,
            block@.len() == pow2(p as nat) - 1,
            n <= p,
            errindex == syndrome(block@, n as nat),
            errindex < pow2(n as nat),
            pow2(p as nat) < usize::MAX,
        decreases p - n,
    {
        let par = compute_parity(&block, n, p);
        let pindex = 1usize << n;
        proof {
            lemma_shl_pow2(n);
            vstd::arithmetic::power2::lemma_pow2_strictly_increases(n as nat, p as nat);
            vstd::arithmetic::power2::lemma_pow2_unfold((n + 1) as nat);
            if n + 1 < p {
                vstd::arithmetic::power2::lemma_pow2_strictly_increases(
                    (n + 1) as nat,
                    p as nat,
                );
            }
        }
        let stored = match block.get(pindex - 1) {
            Some(x) => x,
            None => false,
        };
        if par != stored {
            errindex = errindex + pindex;
        }
        n = n + 1;
    }
    if errindex != 0 {
        let fix = match block.get(errindex - 1) {
            Some(x) => x,
            None => false,
        };
        block.set(errindex - 1, !fix);
    }
    block
}

/// Computes each of the `p` parity checks over the block and stores the
/// result at the power-of-two position the check owns.
pub fn parity(block: BitVec, p: usize) -> (r: BitVec)
    requires
        block.wf(),
        1 <= p < 32,
        block@.len() == pow2(p as nat) - 1,
    ensures
        r.wf(),
        r@ == parity_upto(block@, p as nat),
{
    let ghost orig = block@;
    let mut block = block;
    let mut n: usize = 0;
    while n < p
        invariant
            block.wf(),
            1 <= p < 32,
            block@.len() == pow2(p as nat) - 1,
            n <= p,
            block@ == parity_upto(orig, n as nat),
        decreases p - n,
    {
        let par = compute_parity(&block, n, p);
        let pindex = 1usize << n;
        proof {
            lemma_shl_pow2(n);
            vstd::arithmetic::power2::lemma_pow2_strictly_increases(n as nat, p as nat);
        }
        block.set(pindex - 1, par);
        n = n + 1;
    }
    block
}

/// Builds one codeword block from `plain` starting at bit `start`: parity
/// positions are left false, all other positions take the next plaintext
/// bits in order, padded with false past the end of `plain`.  Returns the
/// position after the last plaintext bit consumed, and the block.
pub fn arrange(plain: &BitVec, start: usize, p: usize) -> (r: (usize, BitVec))
    requires
        plain.wf(),
        1 <= p < 32,
        start <= plain@.len(),
    ensures
        r.1.wf(),
        r.1@.len() == pow2(p as nat) - 1,
        forall|i: int| 0 <= i < r.1@.len() ==> r.1@[i] == arrange_bit(plain@, start as int, i),
        r.0 == if start + num_data((pow2(p as nat) - 1) as nat) <= plain@.len() {
            start + num_data((pow2(p as nat) - 1) as nat)
        } else {
            plain@.len() as int
        },
{
    proof {
        lemma_shl_pow2(p);
    }
    let length = (1usize << p) - 1;
    let mut block = BitVec::with_capacity(length);
    let mut index = start;
    let mut i: usize = 0;
    let plen = plain.len();
    while i < length
        invariant
            plain.wf(),
            block.wf(),
            1 <= p < 32,
            start <= plen,
            plen == plain@.len(),
            length == pow2(p as nat) - 1,
            i <= length,
            block@.len() == i,
            index == if start + num_data(i as nat) <= plen {
                start + num_data(i as nat)
            } else {
                plen as int
            },
            forall|t: int| 0 <= t < i ==> block@[t] == arrange_bit(plain@, start as int, t),
        decreases length - i,
    {
        if is_power_of_two(i + 1) || index >= plen {
            block.push(false);
        } else {
            let bit = match plain.get(index) {
                Some(x) => x,
                None => false,
            };
            block.push(bit);
            index = index + 1;
        }
        i = i + 1;
    }
    (index, block)
}

/// Strips the power-of-two parity positions from a codeword block, leaving
/// the data group.
pub fn assemble(block: BitVec, p: usize) -> (r: BitVec)
    requires
        block.wf(),
        1 <= p < 32,
        block@.len() == pow2(p as nat) - 1,
    ensures
        r.wf(),
        r@ == data_bits(block@, 0),
{
    proof {
        lemma_shl_pow2(p);
        lemma_num_data_pow(p as nat);
    }
    let length = (1usize << p) - 1;
    let mut result = BitVec::with_capacity(length - p);
    let mut i: usize = 0;
    while i < length
        invariant
            block.wf(),
            result.wf(),
            1 <= p < 32,
            length == pow2(p as nat) - 1,
            block@.len() == length,
            i <= length,
            result@.len() <= i,
            data_bits(block@, 0) == result@ + data_bits(block@, i as int),
        decreases length - i,
    {
        if is_power_of_two(i + 1) {
            proof {
                assert(data_bits(block@, i as int) == data_bits(block@, i + 1));
            }
        } else {
            let bit = match block.get(i) {
                Some(x) => x,
                None => false,
            };
            result.push(bit);
            proof {
                assert(data_bits(block@, i as int) == seq![block@[i as int]] + data_bits(
                    block@,
                    i + 1,
                ));
                assert(result@ + data_bits(block@, i + 1) =~= data_bits(block@, 0));
            }
        }
        i = i + 1;
    }
    proof {
        assert(data_bits(block@, length as int) =~= Seq::<bool>::empty());
        assert(result@ =~= data_bits(block@, 0));
    }
    result
}

proof fn lemma_pow2_trick(n: usize)
    requires
        n >= 1,
    ensures
        ((n & ((n - 1) as usize)) == 0) == parity_slot(n as nat),
    decreases n,
{
    if n == 1 {
        assert(1usize & 0usize == 0) by (bit_vector);
    } else if n % 2 == 1 {
        assert(n & ((n - 1) as usize) != 0) by (bit_vector)
            requires
                n >= 3 && n % 2 == 1,
        ;
    } else {
        let h = n / 2;
        lemma_pow2_trick(h);
        assert((n & ((n - 1) as usize) == 0) == (h & ((h - 1) as usize) == 0)) by (bit_vector)
            requires
                n >= 2 && n % 2 == 0 && h == n / 2,
        ;
    }
}


/// Encodes a byte stream: the bits are cut into data groups, each group is
/// arranged into a codeword with its parity bits filled in, and the
/// codewords are packed back into bytes.
pub fn encode(v: &Vec<u8>, p: usize) -> (r: Vec<u8>)
    requires
        2 <= p < 32,
        v@.len() * 8 <= usize::MAX,
        encode_blocks(crate::bitvec::bytes_to_bits(v@), 0, p as nat).len() + 7 <= usize::MAX,
    ensures
        r@ == crate::bitvec::bits_to_bytes(
            encode_blocks(crate::bitvec::bytes_to_bits(v@), 0, p as nat),
        ),
{
    let plain = BitVec::from_bytes(v.as_slice());
    let plen = plain.len();
    let cap = if plen <= usize::MAX / 2 {
        2 * plen
    } else {
        plen
    };
    let mut code = BitVec::with_capacity(cap);
    let mut index: usize = 0;
    proof {
        lemma_pow2_ge(p as nat);
        lemma_num_data_pow(p as nat);
    }
    while index < plen
        invariant
            plain.wf(),
            code.wf(),
            2 <= p < 32,
            plen == plain@.len(),
            index <= plen,
            code@ + encode_blocks(plain@, index as int, p as nat) == encode_blocks(
                plain@,
                0,
                p as nat,
            ),
            encode_blocks(plain@, 0, p as nat).len() + 7 <= usize::MAX,
        decreases plen - index,
    {
        let (new_index, temp_block) = arrange(&plain, index, p);
        let block = parity(temp_block, p);
        proof {
            lemma_pow2_ge(p as nat);
            lemma_num_data_pow(p as nat);
            assert(temp_block@ =~= Seq::new(
                (pow2(p as nat) - 1) as nat,
                |i: int| arrange_bit(plain@, index as int, i),
            ));
            assert(block@ == coded_block(plain@, index as int, p as nat));
            assert(new_index == if index + (pow2(p as nat) - p - 1) <= plen {
                index + (pow2(p as nat) - p - 1)
            } else {
                plen as int
            });
            assert(encode_blocks(plain@, index as int, p as nat) == block@ + encode_blocks(
                plain@,
                new_index as int,
                p as nat,
            ));
        }
        code = append(code, block);
        index = new_index;
    }
    proof {
        assert(encode_blocks(plain@, plen as int, p as nat) =~= Seq::<bool>::empty());
        assert(code@ =~= encode_blocks(plain@, 0, p as nat));
    }
    code.to_bytes()
}

/// Decodes a byte stream: the bits are cut into codewords (a short trailing
/// group is discarded), each codeword is checked and its single-bit error,
/// if any, corrected, and the recovered data groups are packed back into
/// bytes.
pub fn decode(v: &Vec<u8>, p: usize) -> (r: Vec<u8>)
    requires
        2 <= p < 32,
        v@.len() * 8 + 7 <= usize::MAX,
    ensures
        r@ == crate::bitvec::bits_to_bytes(
            decode_blocks(crate::bitvec::bytes_to_bits(v@), 0, p as nat),
        ),
{
    let code = BitVec::from_bytes(v.as_slice());
    let n = code.len();
    let mut plain = BitVec::with_capacity(n / 2);
    let mut index: usize = 0;
    proof {
        lemma_shl_pow2(p);
        lemma_pow2_ge(p as nat);
    }
    let length = (1usize << p) - 1;
    while length <= n - index
        invariant
            code.wf(),
            plain.wf(),
            2 <= p < 32,
            n == code@.len(),
            length == pow2(p as nat) - 1,
            index <= n,
            plain@.len() <= index,
            plain@ + decode_blocks(code@, index as int, p as nat) == decode_blocks(
                code@,
                0,
                p as nat,
            ),
        decreases n - index,
    {
        let mut block = BitVec::with_capacity(length);
        let mut i: usize = 0;
        while i < length
            invariant
                code.wf(),
                block.wf(),
                n == code@.len(),
                index + length <= n,
                i <= length,
                block@ == code@.subrange(index as int, index + i),
            decreases length - i,
        {
            let bit = match code.get(index + i) {
                Some(x) => x,
                None => false,
            };
            block.push(bit);
            proof {
                assert(block@ =~= code@.subrange(index as int, index + i + 1));
            }
            i = i + 1;
        }
        let block = check(block, p);
        proof {
            let cs = check_spec(code@.subrange(index as int, index + length), p as nat);
            assert(code@.subrange(index as int, index + length).len() == length);
            lemma_syndrome_bound(code@.subrange(index as int, index + length), p as nat);
            assert(cs.len() == length);
            assert(block@.len() == length);
        }
        let block = assemble(block, p);
        proof {
            lemma_pow2_ge(p as nat);
            lemma_num_data_pow(p as nat);
            assert(num_data(0) == 0);
            lemma_data_bits_len(
                check_spec(code@.subrange(index as int, index + length), p as nat),
                0,
            );
            assert(block@.len() == length - p);
            assert(decode_blocks(code@, index as int, p as nat) == block@ + decode_blocks(
                code@,
                index + length,
                p as nat,
            ));
        }
        plain = append(plain, block);
        index = index + length;
    }
    proof {
        assert(decode_blocks(code@, index as int, p as nat) =~= Seq::<bool>::empty());
        assert(plain@ =~= decode_blocks(code@, 0, p as nat));
    }
    plain.to_bytes()
}

} // verus!
