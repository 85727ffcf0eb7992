use vstd::prelude::*;

verus! {

/// True iff bit `b` of the 32-bit word `w` is set.
pub open spec fn nth_bit(w: u32, b: u32) -> bool {
    (w >> b) & 1u32 == 1u32
}

/// Number of 32-bit words needed to hold `nbits` bits.
pub open spec fn blocks_spec(nbits: nat) -> nat {
    if nbits % 32 == 0 {
        nbits / 32
    } else {
        nbits / 32 + 1
    }
}

proof fn lemma_bit_or_mask(w: u32, b: u32)
    by (bit_vector)
    requires
        b < 32,
    ensures
        forall|j: u32| j < 32 ==> #[trigger] nth_bit(w | (1u32 << b), j) == (j == b || nth_bit(w, j)),
{
}

proof fn lemma_bit_and_not_mask(w: u32, b: u32)
    by (bit_vector)
    requires
        b < 32,
    ensures
        forall|j: u32|
            j < 32 ==> #[trigger] nth_bit(w & !(1u32 << b), j) == (j != b && nth_bit(w, j)),
{
}

proof fn lemma_bit_low_mask(w: u32, e: u32, m: u32)
    by (bit_vector)
    requires
        0 < e < 32,
        m == (1u32 << e) - 1,
    ensures
        forall|j: u32| j < 32 ==> #[trigger] nth_bit(w & m, j) == (j < e && nth_bit(w, j)),
{
}

proof fn lemma_bit_zero_word()
    by (bit_vector)
    ensures
        forall|j: u32| j < 32 ==> !(#[trigger] nth_bit(0u32, j)),
{
}

proof fn lemma_bit_full_word()
    by (bit_vector)
    ensures
        forall|j: u32| j < 32 ==> #[trigger] nth_bit(!0u32, j),
{
}

proof fn lemma_nonzero_has_bit(w: u32)
    requires
        w != 0,
    ensures
        exists|j: u32| j < 32 && #[trigger] nth_bit(w, j),
    decreases w,
{
    if nth_bit(w, 0) {
        assert(nth_bit(w, 0));
    } else {
        let w2 = w >> 1u32;
        assert(w2 != 0 && w2 < w) by (bit_vector)
            requires
                w != 0,
                !nth_bit(w, 0),
                w2 == w >> 1u32,
        ;
        lemma_nonzero_has_bit(w2);
        let j = choose|j: u32| j < 32 && #[trigger] nth_bit(w2, j);
        assert(j < 31 && nth_bit(w, ((j + 1) as u32))) by (bit_vector)
            requires
                j < 32,
                nth_bit(w2, j),
                w2 == w >> 1u32,
        ;
    }
}

proof fn lemma_word_neq(w1: u32, w2: u32)
    requires
        w1 != w2,
    ensures
        exists|j: u32| j < 32 && #[trigger] nth_bit(w1, j) != nth_bit(w2, j),
{
    let x = w1 ^ w2;
    assert(x != 0) by (bit_vector)
        requires
            w1 != w2,
            x == w1 ^ w2,
    ;
    lemma_nonzero_has_bit(x);
    let j = choose|j: u32| j < 32 && #[trigger] nth_bit(x, j);
    assert(nth_bit(w1, j) != nth_bit(w2, j)) by (bit_vector)
        requires
            j < 32,
            nth_bit(x, j),
            x == w1 ^ w2,
    ;
}

proof fn lemma_bit_or(a: u32, b: u32)
    by (bit_vector)
    ensures
        forall|j: u32| j < 32 ==> #[trigger] nth_bit(a | b, j) == (nth_bit(a, j) || nth_bit(b, j)),
{
}

proof fn lemma_bit_and(a: u32, b: u32)
    by (bit_vector)
    ensures
        forall|j: u32| j < 32 ==> #[trigger] nth_bit(a & b, j) == (nth_bit(a, j) && nth_bit(b, j)),
{
}

proof fn lemma_bit_and_not(a: u32, b: u32)
    by (bit_vector)
    ensures
        forall|j: u32|
            j < 32 ==> #[trigger] nth_bit(a & !b, j) == (nth_bit(a, j) && !nth_bit(b, j)),
{
}

/// A word-wise boolean operation, applied bit for bit.
#[derive(Clone, Copy)]
enum WordOp {
    Union,
    Intersect,
    Difference,
}

spec fn apply_op(op: WordOp, a: bool, b: bool) -> bool {
    match op {
        WordOp::Union => a || b,
        WordOp::Intersect => a && b,
        WordOp::Difference => a && !b,
    }
}

fn word_apply(op: WordOp, a: u32, b: u32) -> (r: u32)
    ensures
        forall|j: u32|
            j < 32 ==> #[trigger] nth_bit(r, j) == apply_op(op, nth_bit(a, j), nth_bit(b, j)),
{
    match op {
        WordOp::Union => {
            proof {
                lemma_bit_or(a, b);
            }
            a | b
        },
        WordOp::Intersect => {
            proof {
                lemma_bit_and(a, b);
            }
            a & b
        },
        WordOp::Difference => {
            proof {
                lemma_bit_and_not(a, b);
            }
            a & !b
        },
    }
}

/// How many words a given number of bits occupies.
fn blocks_for_bits(bits: usize) -> (r: usize)
    ensures
        r == blocks_spec(bits as nat),
{
    if bits % 32 == 0 {
        bits / 32
    } else {
        bits / 32 + 1
    }
}

proof fn lemma_bit_not(a: u32)
    by (bit_vector)
    ensures
        forall|j: u32| j < 32 ==> #[trigger] nth_bit(!a, j) == !nth_bit(a, j),
{
}

proof fn lemma_bit_shl_or(last: u32, block: u32, b: u32)
    by (bit_vector)
    requires
        0 < b < 32,
    ensures
        forall|j: u32|
            j < 32 ==> #[trigger] nth_bit(last | (block << b), j) == (nth_bit(last, j) || (b <= j
                && nth_bit(block, (j - b) as u32))),
{
}

proof fn lemma_bit_shr(block: u32, s: u32)
    by (bit_vector)
    requires
        0 < s < 32,
    ensures
        forall|j: u32|
            j < 32 ==> #[trigger] nth_bit(block >> s, j) == (j + s < 32 && nth_bit(
                block,
                (j + s) as u32,
            )),
{
}

proof fn lemma_bit_split_word(last: u32, cur: u32, b: u32)
    by (bit_vector)
    requires
        0 < b < 32,
    ensures
        forall|j: u32|
            j < 32 ==> #[trigger] nth_bit((last >> b) | (cur << ((32 - b) as u32)), j) == (if j + b
                < 32 {
                nth_bit(last, (j + b) as u32)
            } else {
                nth_bit(cur, (j + b - 32) as u32)
            }),
{
}

/// Bit `p` of a sequence of packed words.
spec fn sbit(s: Seq<u32>, p: int) -> bool {
    nth_bit(s[p / 32], (p % 32) as u32)
}

proof fn lemma_bit_tail_mask(r: u32, e: u32, s: u32)
    by (bit_vector)
    requires
        e < 32,
        s == (32 - e) % 32,
        r == !0u32 >> s,
    ensures
        forall|j: u32| j < 32 ==> #[trigger] nth_bit(r, j) == (e == 0 || j < e),
{
}

/// The mask of valid bit offsets in the final word of a vector of `bits` bits:
/// all ones when `bits` is a multiple of 32.
fn mask_for_bits(bits: usize) -> (r: u32)
    ensures
        forall|j: u32|
            j < 32 ==> #[trigger] nth_bit(r, j) == (bits % 32 == 0 || j < bits % 32),
{
    let e: u32 = (bits % 32) as u32;
    let s: u32 = (32 - e) % 32;
    let r = !0u32 >> s;
    proof {
        lemma_bit_tail_mask(r, e, s);
    }
    r
}

/// True iff bit `b` of the byte `x` is set.
pub open spec fn byte_bit(x: u8, b: u8) -> bool {
    (x >> b) & 1u8 == 1u8
}

/// The bit sequence a byte sequence denotes: bit `k` of the stream is bit
/// `7 - k % 8` of byte `k / 8`, so each byte is read most significant bit
/// first.
pub open spec fn bytes_to_bits(bytes: Seq<u8>) -> Seq<bool> {
    Seq::new(bytes.len() * 8, |k: int| byte_bit(bytes[k / 8], (7 - k % 8) as u8))
}

/// Number of bytes needed to hold `nbits` bits.
pub open spec fn bytes_for_bits(nbits: nat) -> nat {
    if nbits % 8 == 0 {
        nbits / 8
    } else {
        nbits / 8 + 1
    }
}

/// The contribution of stream position `pos` to its byte: bit `7 - k` of the
/// byte, where `k = pos % 8`; positions past the end of `s` contribute zero.
pub open spec fn bit_term(s: Seq<bool>, pos: int, k: int) -> u8 {
    if 0 <= pos < s.len() && s[pos] {
        1u8 << ((7 - k) as u8)
    } else {
        0u8
    }
}

/// The byte that stream positions `8*i .. 8*i + 8` of `s` pack into, MSB
/// first; a final partial byte is zero-padded in its low bits.
pub open spec fn byte_from_bits(s: Seq<bool>, i: int) -> u8 {
    bit_term(s, 8 * i + 0, 0) | bit_term(s, 8 * i + 1, 1) | bit_term(s, 8 * i + 2, 2) | bit_term(
        s,
        8 * i + 3,
        3,
    ) | bit_term(s, 8 * i + 4, 4) | bit_term(s, 8 * i + 5, 5) | bit_term(s, 8 * i + 6, 6)
        | bit_term(s, 8 * i + 7, 7)
}

/// The byte sequence a bit sequence packs into.
pub open spec fn bits_to_bytes(s: Seq<bool>) -> Seq<u8> {
    Seq::new(bytes_for_bits(s.len()), |i: int| byte_from_bits(s, i))
}

/// A growable sequence of bits, packed into 32-bit words.
/// Bit `i` lives in word `i / 32` at offset `i % 32`.
#[derive(Debug, Hash)]
pub struct BitVec {
    storage: Vec<u32>,
    nbits: usize,
}

impl View for BitVec {
    type V = Seq<bool>;

    closed spec fn view(&self) -> Seq<bool> {
        Seq::new(self.nbits as nat, |i: int| nth_bit(self.storage@[i / 32], (i % 32) as u32))
    }
}

impl BitVec {
    /// Storage is exactly as long as the bit count demands, and every bit of
    /// the backing words at an index at or beyond the length is zero.
    pub closed spec fn wf(&self) -> bool {
        &&& self.storage@.len() == blocks_spec(self.nbits as nat)
        &&& forall|k: int, b: u32|
            0 <= k < self.storage@.len() && b < 32 && 32 * k + b >= self.nbits
                ==> !(#[trigger] nth_bit(self.storage@[k], b))
    }

    /// Creates an empty bit vector.
    pub fn new() -> (r: BitVec)
        ensures
            r.wf(),
            r@ == Seq::<bool>::empty(),
    {
        let r = BitVec { storage: Vec::new(), nbits: 0 };
        proof {
            assert(r@ =~= Seq::<bool>::empty());
        }
        r
    }

    /// Creates an empty bit vector with room reserved for `nbits` bits.
    pub fn with_capacity(nbits: usize) -> (r: BitVec)
        ensures
            r.wf(),
            r@ == Seq::<bool>::empty(),
    {
        let r = BitVec { storage: Vec::with_capacity(blocks_for_bits(nbits)), nbits: 0 };
        proof {
            assert(r@ =~= Seq::<bool>::empty());
        }
        r
    }

    /// Returns the total number of bits in this vector.
    pub fn len(&self) -> (r: usize)
        ensures
            r == self@.len(),
    {
        self.nbits
    }

    /// Returns true if there are no bits in this vector.
    pub fn is_empty(&self) -> (r: bool)
        ensures
            r == (self@.len() == 0),
    {
        self.nbits == 0
    }

    /// Retrieves the bit at index `i`, or `None` if `i` is out of bounds.
    pub fn get(&self, i: usize) -> (r: Option<bool>)
        requires
            self.wf(),
        ensures
            r == if i < self@.len() {
                Some(self@[i as int])
            } else {
                None::<bool>
            },
    {
        if i >= self.nbits {
            return None;
        }
        let w: usize = i / 32;
        let b: u32 = (i % 32) as u32;
        assert(w < self.storage@.len());
        let block = self.storage[w];
        Some((block >> b) & 1 == 1)
    }

    /// Sets the bit at index `i`, which must be in bounds.
    pub fn set(&mut self, i: usize, x: bool)
        requires
            old(self).wf(),
            i < old(self)@.len(),
        ensures
            final(self).wf(),
            final(self)@ == old(self)@.update(i as int, x),
    {
        let w: usize = i / 32;
        let b: u32 = (i % 32) as u32;
        assert(w < self.storage@.len());
        let flag: u32 = 1u32 << b;
        let word = self.storage[w];
        let val = if x {
            word | flag
        } else {
            word & !flag
        };
        self.storage[w] = val;
        proof {
            if x {
                lemma_bit_or_mask(word, b);
            } else {
                lemma_bit_and_not_mask(word, b);
            }
            assert forall|idx: int| 0 <= idx < self.nbits implies self@[idx] == old(self)@.update(
                i as int,
                x,
            )[idx] by {
                if idx / 32 == w {
                    assert(idx % 32 == b <==> idx == i);
                }
            }
            assert(final(self)@ =~= old(self)@.update(i as int, x));
        }
    }

    /// Appends a bit at the end.
    pub fn push(&mut self, bit: bool)
        requires
            old(self).wf(),
            old(self)@.len() < usize::MAX,
        ensures
            final(self).wf(),
            final(self)@ == old(self)@.push(bit),
    {
        let n = self.nbits;
        if n % 32 == 0 {
            self.storage.push(0u32);
        }
        self.nbits = n + 1;
        proof {
            lemma_bit_zero_word();
            assert(self.wf());
            assert(self@ =~= old(self)@.push(false));
        }
        self.set(n, bit);
        proof {
            assert(final(self)@ =~= old(self)@.push(bit));
        }
    }

    /// Removes and returns the last bit, or `None` if the vector is empty.
    pub fn pop(&mut self) -> (r: Option<bool>)
        requires
            old(self).wf(),
        ensures
            final(self).wf(),
            r == if old(self)@.len() == 0 {
                None::<bool>
            } else {
                Some(old(self)@.last())
            },
            final(self)@ == if old(self)@.len() == 0 {
                old(self)@
            } else {
                old(self)@.drop_last()
            },
    {
        if self.nbits == 0 {
            proof {
                assert(final(self)@ =~= old(self)@);
            }
            return None;
        }
        let i = self.nbits - 1;
        let w: usize = i / 32;
        let b: u32 = (i % 32) as u32;
        assert(w < self.storage@.len());
        let word = self.storage[w];
        let ret = (word >> b) & 1 == 1;
        self.storage[w] = word & !(1u32 << b);
        self.nbits = i;
        if i % 32 == 0 {
            self.storage.pop();
        }
        proof {
            lemma_bit_and_not_mask(word, b);
            assert(self.wf());
            assert forall|idx: int| 0 <= idx < i implies self@[idx] == old(self)@[idx] by {
                if idx / 32 == w {
                    assert(idx % 32 == b <==> idx == i);
                }
            }
            assert(final(self)@ =~= old(self)@.drop_last());
        }
        Some(ret)
    }

    /// Zeroes any stray bits beyond the length in the last word.
    fn fix_last_block(&mut self)
        requires
            old(self).storage@.len() == blocks_spec(old(self).nbits as nat),
        ensures
            final(self).wf(),
            final(self).nbits == old(self).nbits,
            final(self)@ == old(self)@,
    {
        let extra: u32 = (self.nbits % 32) as u32;
        if extra > 0 {
            let l = self.storage.len();
            assert(l >= 1);
            let word = self.storage[l - 1];
            assert(1u32 << extra >= 1) by (bit_vector)
                requires
                    extra < 32,
            ;
            let maskv = (1u32 << extra) - 1;
            let masked = word & maskv;
            self.storage[l - 1] = masked;
            proof {
                lemma_bit_low_mask(word, extra, maskv);
                assert forall|idx: int| 0 <= idx < self.nbits implies self@[idx] == old(
                    self,
                )@[idx] by {
                    if idx / 32 == l - 1 {
                        assert(idx % 32 < extra);
                    }
                }
                assert(final(self)@ =~= old(self)@);
            }
        }
    }

    /// Creates a bit vector of `nbits` bits, every one equal to `bit`.
    pub fn from_elem(nbits: usize, bit: bool) -> (r: BitVec)
        ensures
            r.wf(),
            r@ == Seq::new(nbits as nat, |i: int| bit),
    {
        let nblocks = blocks_for_bits(nbits);
        let full: u32 = if bit {
            !0u32
        } else {
            0u32
        };
        let mut storage: Vec<u32> = Vec::new();
        while storage.len() < nblocks
            invariant
                storage@.len() <= nblocks,
                forall|k: int| 0 <= k < storage@.len() ==> storage@[k] == full,
            decreases nblocks - storage.len(),
        {
            storage.push(full);
        }
        let mut r = BitVec { storage, nbits };
        proof {
            lemma_bit_zero_word();
            lemma_bit_full_word();
        }
        r.fix_last_block();
        proof {
            assert(r@ =~= Seq::new(nbits as nat, |i: int| bit));
        }
        r
    }

    /// Shortens the vector to `len` bits, discarding the excess; does nothing
    /// if `len` is not smaller than the current length.
    pub fn truncate(&mut self, len: usize)
        requires
            old(self).wf(),
        ensures
            final(self).wf(),
            final(self)@ == if len < old(self)@.len() {
                old(self)@.subrange(0, len as int)
            } else {
                old(self)@
            },
    {
        if len < self.nbits {
            self.nbits = len;
            let nb = blocks_for_bits(len);
            self.storage.truncate(nb);
            self.fix_last_block();
            proof {
                assert(final(self)@ =~= old(self)@.subrange(0, len as int));
            }
        } else {
            proof {
                assert(final(self)@ =~= old(self)@);
            }
        }
    }

    /// Sets every bit to 0, keeping the length.
    pub fn clear(&mut self)
        requires
            old(self).wf(),
        ensures
            final(self).wf(),
            final(self)@ == Seq::new(old(self)@.len(), |i: int| false),
    {
        let mut k: usize = 0;
        let n = self.storage.len();
        while k < n
            invariant
                n == self.storage@.len(),
                k <= n,
                self.nbits == old(self).nbits,
                self.storage@.len() == old(self).storage@.len(),
                forall|j: int| 0 <= j < k ==> self.storage@[j] == 0u32,
            decreases n - k,
        {
            self.storage[k] = 0u32;
            k = k + 1;
        }
        proof {
            lemma_bit_zero_word();
            assert(final(self)@ =~= Seq::new(old(self)@.len(), |i: int| false));
        }
    }

    /// Sets every bit to 1, keeping the length.
    pub fn set_all(&mut self)
        requires
            old(self).wf(),
        ensures
            final(self).wf(),
            final(self)@ == Seq::new(old(self)@.len(), |i: int| true),
    {
        let mut k: usize = 0;
        let n = self.storage.len();
        while k < n
            invariant
                n == self.storage@.len(),
                k <= n,
                self.nbits == old(self).nbits,
                self.storage@.len() == old(self).storage@.len(),
                forall|j: int| 0 <= j < k ==> self.storage@[j] == !0u32,
            decreases n - k,
        {
            self.storage[k] = !0u32;
            k = k + 1;
        }
        proof {
            lemma_bit_full_word();
            assert(self.storage@.len() == blocks_spec(self.nbits as nat));
        }
        self.fix_last_block();
        proof {
            assert(final(self)@ =~= Seq::new(old(self)@.len(), |i: int| true));
        }
    }

    /// Flips every bit in place.
    pub fn negate(&mut self)
        requires
            old(self).wf(),
        ensures
            final(self).wf(),
            final(self)@ == Seq::new(old(self)@.len(), |i: int| !old(self)@[i]),
    {
        let mut k: usize = 0;
        let n = self.storage.len();
        while k < n
            invariant
                n == self.storage@.len(),
                k <= n,
                self.nbits == old(self).nbits,
                self.storage@.len() == old(self).storage@.len(),
                forall|j: int| k <= j < n ==> self.storage@[j] == old(self).storage@[j],
                forall|j: int| 0 <= j < k ==> self.storage@[j] == !old(self).storage@[j],
            decreases n - k,
        {
            let word = self.storage[k];
            self.storage[k] = !word;
            k = k + 1;
        }
        proof {
            assert forall|j: int, b: u32|
                0 <= j < n && b < 32 implies #[trigger] nth_bit(self.storage@[j], b) == !nth_bit(
                old(self).storage@[j],
                b,
            ) by {
                let w = old(self).storage@[j];
                assert(nth_bit(!w, b) == !nth_bit(w, b)) by (bit_vector)
                    requires
                        b < 32,
                ;
            }
            assert(self.storage@.len() == blocks_spec(self.nbits as nat));
        }
        self.fix_last_block();
        proof {
            assert(final(self)@ =~= Seq::new(old(self)@.len(), |i: int| !old(self)@[i]));
        }
    }

    /// Applies `op` word by word with `other`, reporting whether any bit of
    /// `self` changed.  Both vectors must have the same length.
    fn process(&mut self, other: &BitVec, op: WordOp) -> (changed: bool)
        requires
            old(self).wf(),
            other.wf(),
            old(self)@.len() == other@.len(),
        ensures
            final(self).wf(),
            final(self)@ == Seq::new(
                old(self)@.len(),
                |i: int| apply_op(op, old(self)@[i], other@[i]),
            ),
            changed == (final(self)@ != old(self)@),
    {
        let n = self.storage.len();
        assert(other.storage@.len() == n);
        let mut changed_bits: u32 = 0;
        let mut k: usize = 0;
        while k < n
            invariant
                old(self).wf(),
                other.wf(),
                old(self)@.len() == other@.len(),
                n == self.storage@.len(),
                other.storage@.len() == n,
                self.nbits == old(self).nbits,
                k <= n,
                forall|t: int| k <= t < n ==> self.storage@[t] == old(self).storage@[t],
                forall|t: int, j: u32|
                    0 <= t < k && j < 32 ==> #[trigger] nth_bit(self.storage@[t], j) == apply_op(
                        op,
                        nth_bit(old(self).storage@[t], j),
                        nth_bit(other.storage@[t], j),
                    ),
                (changed_bits == 0) <==> (forall|t: int|
                    0 <= t < k ==> self.storage@[t] == old(self).storage@[t]),
            decreases n - k,
        {
            let a = self.storage[k];
            let b = other.storage[k];
            let w = word_apply(op, a, b);
            let ghost prev = changed_bits;
            changed_bits = changed_bits | (a ^ w);
            self.storage[k] = w;
            proof {
                assert((prev | (a ^ w) == 0) <==> (prev == 0 && a == w)) by (bit_vector);
            }
            k = k + 1;
        }
        proof {
            assert forall|kk: int, b: u32|
                0 <= kk < self.storage@.len() && b < 32 && 32 * kk + b >= self.nbits implies !(
            #[trigger] nth_bit(self.storage@[kk], b)) by {
                assert(!nth_bit(old(self).storage@[kk], b));
                assert(!nth_bit(other.storage@[kk], b));
            }
            assert(self.wf());
            assert(self@ =~= Seq::new(old(self)@.len(), |i: int| apply_op(op, old(self)@[i], other@[i])));
            if changed_bits == 0 {
                assert(self@ =~= old(self)@);
            } else {
                let t = choose|t: int|
                    0 <= t < n && self.storage@[t] != old(self).storage@[t];
                lemma_word_neq(self.storage@[t], old(self).storage@[t]);
                let j = choose|j: u32|
                    j < 32 && #[trigger] nth_bit(self.storage@[t], j) != nth_bit(
                        old(self).storage@[t],
                        j,
                    );
                assert(32 * t + j < self.nbits);
                assert((32 * t + j) / 32 == t && (32 * t + j) % 32 == j);
                assert(self@[32 * t + j] != old(self)@[32 * t + j]);
            }
        }
        changed_bits != 0
    }

    /// Sets `self` to the bitwise OR of `self` and `other`; returns whether
    /// `self` changed.  Both vectors must have the same length.
    pub fn union(&mut self, other: &BitVec) -> (changed: bool)
        requires
            old(self).wf(),
            other.wf(),
            old(self)@.len() == other@.len(),
        ensures
            final(self).wf(),
            final(self)@ == Seq::new(old(self)@.len(), |i: int| old(self)@[i] || other@[i]),
            changed == (final(self)@ != old(self)@),
    {
        self.process(other, WordOp::Union)
    }

    /// Sets `self` to the bitwise AND of `self` and `other`; returns whether
    /// `self` changed.  Both vectors must have the same length.
    pub fn intersect(&mut self, other: &BitVec) -> (changed: bool)
        requires
            old(self).wf(),
            other.wf(),
            old(self)@.len() == other@.len(),
        ensures
            final(self).wf(),
            final(self)@ == Seq::new(old(self)@.len(), |i: int| old(self)@[i] && other@[i]),
            changed == (final(self)@ != old(self)@),
    {
        self.process(other, WordOp::Intersect)
    }

    /// Clears in `self` every bit that is set in `other`; returns whether
    /// `self` changed.  Both vectors must have the same length.
    pub fn difference(&mut self, other: &BitVec) -> (changed: bool)
        requires
            old(self).wf(),
            other.wf(),
            old(self)@.len() == other@.len(),
        ensures
            final(self).wf(),
            final(self)@ == Seq::new(old(self)@.len(), |i: int| old(self)@[i] && !other@[i]),
            changed == (final(self)@ != old(self)@),
    {
        self.process(other, WordOp::Difference)
    }

    /// Returns true if every bit is 1.
    pub fn all(&self) -> (r: bool)
        requires
            self.wf(),
        ensures
            r == (forall|i: int| 0 <= i < self@.len() ==> self@[i]),
    {
        let n = self.storage.len();
        if n == 0 {
            return true;
        }
        let mut k: usize = 0;
        while k < n - 1
            invariant
                self.wf(),
                n == self.storage@.len(),
                0 < n,
                k <= n - 1,
                forall|t: int| 0 <= t < k ==> self.storage@[t] == !0u32,
            decreases n - k,
        {
            let w = self.storage[k];
            if w != !0u32 {
                proof {
                    lemma_word_neq(w, !0u32);
                    lemma_bit_full_word();
                    let j = choose|j: u32| j < 32 && #[trigger] nth_bit(w, j) != nth_bit(!0u32, j);
                    assert(32 * (k as int) + j < self.nbits);
                    assert((32 * (k as int) + j) / 32 == k as int);
                    assert(!self@[32 * (k as int) + j]);
                }
                return false;
            }
            k = k + 1;
        }
        let m = mask_for_bits(self.nbits);
        let lastw = self.storage[n - 1];
        if lastw == m {
            proof {
                lemma_bit_full_word();
                assert forall|i: int| 0 <= i < self@.len() implies self@[i] by {
                    let t = i / 32;
                    let j = (i % 32) as u32;
                    if t < n - 1 {
                        assert(nth_bit(!0u32, j));
                    } else {
                        assert(nth_bit(m, j) == (self.nbits % 32 == 0 || j < self.nbits % 32));
                    }
                }
            }
            true
        } else {
            proof {
                lemma_word_neq(lastw, m);
                let j = choose|j: u32| j < 32 && #[trigger] nth_bit(lastw, j) != nth_bit(m, j);
                let i = 32 * (n - 1) + j;
                assert(i / 32 == n - 1 && i % 32 == j);
                if i >= self.nbits {
                    assert(!nth_bit(lastw, j));
                    assert(!nth_bit(m, j));
                    assert(false);
                }
                assert(!self@[i]);
            }
            false
        }
    }

    /// Returns true if every bit is 0.
    pub fn none(&self) -> (r: bool)
        requires
            self.wf(),
        ensures
            r == (forall|i: int| 0 <= i < self@.len() ==> !self@[i]),
    {
        let n = self.storage.len();
        let mut k: usize = 0;
        while k < n
            invariant
                self.wf(),
                n == self.storage@.len(),
                k <= n,
                forall|t: int| 0 <= t < k ==> self.storage@[t] == 0u32,
            decreases n - k,
        {
            let w = self.storage[k];
            if w != 0u32 {
                proof {
                    lemma_word_neq(w, 0u32);
                    lemma_bit_zero_word();
                    let j = choose|j: u32| j < 32 && #[trigger] nth_bit(w, j) != nth_bit(0u32, j);
                    assert(nth_bit(w, j));
                    assert(32 * (k as int) + j < self.nbits);
                    assert((32 * (k as int) + j) / 32 == k as int);
                    assert(self@[32 * (k as int) + j]);
                }
                return false;
            }
            k = k + 1;
        }
        proof {
            lemma_bit_zero_word();
        }
        true
    }

    /// Returns true if any bit is 1.
    pub fn any(&self) -> (r: bool)
        requires
            self.wf(),
        ensures
            r == (exists|i: int| 0 <= i < self@.len() && self@[i]),
    {
        !self.none()
    }

    /// Builds a bit vector from bytes: each byte becomes eight bits, most
    /// significant bit first.
    pub fn from_bytes(bytes: &[u8]) -> (r: BitVec)
        requires
            bytes@.len() * 8 <= usize::MAX,
        ensures
            r.wf(),
            r@ == bytes_to_bits(bytes@),
    {
        let n = bytes.len();
        let mut r = BitVec::with_capacity(n * 8);
        let mut i: usize = 0;
        while i < n
            invariant
                r.wf(),
                n == bytes@.len(),
                n * 8 <= usize::MAX,
                i <= n,
                r@.len() == 8 * i,
                forall|p: int|
                    0 <= p < 8 * i ==> r@[p] == byte_bit(bytes@[p / 8], (7 - p % 8) as u8),
            decreases n - i,
        {
            let byte = bytes[i];
            let mut k: usize = 0;
            while k < 8
                invariant
                    r.wf(),
                    byte == bytes@[i as int],
                    i < n,
                    n == bytes@.len(),
                    n * 8 <= usize::MAX,
                    k <= 8,
                    r@.len() == 8 * i + k,
                    forall|p: int|
                        0 <= p < 8 * i + k ==> r@[p] == byte_bit(bytes@[p / 8], (7 - p % 8) as u8),
                decreases 8 - k,
            {
                let sh: u8 = (7 - k) as u8;
                let bit = (byte >> sh) & 1 == 1;
                r.push(bit);
                proof {
                    let p0 = 8 * (i as int) + k;
                    assert(p0 / 8 == i as int && p0 % 8 == k);
                }
                k = k + 1;
            }
            i = i + 1;
        }
        proof {
            assert(r@ =~= bytes_to_bits(bytes@));
        }
        r
    }

    /// One addend of a packed byte: the contribution of stream position
    /// `base + k`.
    fn byte_piece(&self, base: usize, k: usize) -> (r: u8)
        requires
            self.wf(),
            k < 8,
            base + 7 <= usize::MAX,
        ensures
            r == bit_term(self@, base + k, k as int),
    {
        let off = base + k;
        if off >= self.nbits {
            0
        } else {
            let w: usize = off / 32;
            let b: u32 = (off % 32) as u32;
            assert(w < self.storage@.len());
            let word = self.storage[w];
            if (word >> b) & 1 == 1 {
                let sh: u8 = (7 - k) as u8;
                1u8 << sh
            } else {
                0
            }
        }
    }

    /// Packs the bits into bytes, the first bit becoming the high-order bit
    /// of the first byte; a final partial byte is zero-padded in its low
    /// bits.
    pub fn to_bytes(&self) -> (r: Vec<u8>)
        requires
            self.wf(),
            self@.len() + 7 <= usize::MAX,
        ensures
            r@ == bits_to_bytes(self@),
    {
        let total = self.nbits / 8 + if self.nbits % 8 == 0 {
            0usize
        } else {
            1
        };
        let mut out: Vec<u8> = Vec::with_capacity(total);
        let mut i: usize = 0;
        while i < total
            invariant
                self.wf(),
                self@.len() + 7 <= usize::MAX,
                total == bytes_for_bits(self@.len()),
                i <= total,
                out@.len() == i,
                forall|t: int| 0 <= t < i ==> out@[t] == byte_from_bits(self@, t),
            decreases total - i,
        {
            proof {
                assert(8 * (i as int) < self@.len());
            }
            let base = i * 8;
            let byte = self.byte_piece(base, 0) | self.byte_piece(base, 1) | self.byte_piece(
                base,
                2,
            ) | self.byte_piece(base, 3) | self.byte_piece(base, 4) | self.byte_piece(base, 5)
                | self.byte_piece(base, 6) | self.byte_piece(base, 7);
            proof {
                assert(byte == byte_from_bits(self@, i as int));
            }
            out.push(byte);
            i = i + 1;
        }
        proof {
            assert(out@ =~= bits_to_bytes(self@));
        }
        out
    }

    /// Compares the bits to a slice of booleans of the same length.
    pub fn eq_vec(&self, v: &[bool]) -> (r: bool)
        requires
            self.wf(),
            self@.len() == v@.len(),
        ensures
            r == (self@ == v@),
    {
        let n = self.nbits;
        let mut i: usize = 0;
        while i < n
            invariant
                self.wf(),
                n == self@.len(),
                v@.len() == n,
                i <= n,
                forall|j: int| 0 <= j < i ==> self@[j] == v@[j],
            decreases n - i,
        {
            let w: usize = i / 32;
            let b: u32 = (i % 32) as u32;
            assert(w < self.storage@.len());
            let bit = (self.storage[w] >> b) & 1 == 1;
            if bit != v[i] {
                return false;
            }
            i = i + 1;
        }
        proof {
            assert(self@ =~= v@);
        }
        true
    }

    /// Creates a bit vector of `len` bits where the bit at each index is the
    /// value `f` returns for that index.
    pub fn from_fn<F: Fn(usize) -> bool>(len: usize, f: F) -> (r: BitVec)
        requires
            forall|i: usize| i < len ==> #[trigger] f.requires((i,)),
        ensures
            r.wf(),
            r@.len() == len,
            forall|i: int| 0 <= i < len ==> #[trigger] f.ensures(((i as usize),), r@[i]),
    {
        let mut r = BitVec::from_elem(len, false);
        let mut i: usize = 0;
        while i < len
            invariant
                r.wf(),
                r@.len() == len,
                i <= len,
                forall|i2: usize| i2 < len ==> #[trigger] f.requires((i2,)),
                forall|j: int| 0 <= j < i ==> #[trigger] f.ensures(((j as usize),), r@[j]),
            decreases len - i,
        {
            let v = f(i);
            r.set(i, v);
            i = i + 1;
        }
        r
    }

    /// Extends the vector in place by `n` copies of `value`, filling the
    /// partial last word and then whole new words.
    pub fn grow(&mut self, n: usize, value: bool)
        requires
            old(self).wf(),
            old(self)@.len() + n <= usize::MAX,
        ensures
            final(self).wf(),
            final(self)@ == old(self)@ + Seq::new(n as nat, |i: int| value),
    {
        let a = self.nbits;
        let new_nbits = a + n;
        let new_nblocks = blocks_for_bits(new_nbits);
        let full: u32 = if value {
            !0u32
        } else {
            0u32
        };
        // set the formerly unused bits of the tail word; when `value` is
        // false they are already zero by the invariant
        if a % 32 > 0 && value {
            let m = mask_for_bits(a);
            let l = self.storage.len();
            assert(l >= 1);
            let w = self.storage[l - 1];
            self.storage[l - 1] = w | !m;
            proof {
                lemma_bit_or(w, !m);
                lemma_bit_not(m);
            }
        }
        proof {
            lemma_bit_zero_word();
            lemma_bit_full_word();
        }
        while self.storage.len() < new_nblocks
            invariant
                old(self).wf(),
                a == old(self).nbits,
                self.nbits == a,
                new_nbits == a + n,
                new_nbits <= usize::MAX,
                new_nblocks == blocks_spec(new_nbits as nat),
                full == if value {
                    !0u32
                } else {
                    0u32
                },
                blocks_spec(a as nat) <= self.storage@.len() <= new_nblocks,
                forall|p: int|
                    0 <= p < 32 * self.storage@.len() ==> #[trigger] sbit(self.storage@, p) == (p
                        < a && old(self)@[p] || a <= p && value && p < 32 * blocks_spec(
                        a as nat,
                    ) && a % 32 != 0 || 32 * blocks_spec(a as nat) <= p && value),
            decreases new_nblocks - self.storage@.len(),
        {
            let ghost prev = self.storage@;
            self.storage.push(full);
            proof {
                lemma_bit_zero_word();
                lemma_bit_full_word();
                let l = self.storage@.len() as int;
                assert forall|p: int|
                    0 <= p < 32 * l implies #[trigger] sbit(self.storage@, p) == (p < a && old(
                    self,
                )@[p] || a <= p && value && p < 32 * blocks_spec(a as nat) && a % 32 != 0 || 32
                    * blocks_spec(a as nat) <= p && value) by {
                    if p < 32 * (l - 1) {
                        assert(p / 32 < l - 1);
                        assert(sbit(self.storage@, p) == sbit(prev, p));
                    } else {
                        assert(p / 32 == l - 1);
                        assert(self.storage@[l - 1] == full);
                    }
                }
            }
        }
        self.nbits = new_nbits;
        proof {
            assert(self.storage@.len() == blocks_spec(self.nbits as nat));
            let target = old(self)@ + Seq::new(n as nat, |i: int| value);
            assert forall|p: int| 0 <= p < new_nbits implies self@[p] == target[p] by {
                assert(self@[p] == sbit(self.storage@, p));
            }
            assert(self@ =~= target);
        }
        let ghost mid = self@;
        self.fix_last_block();
        proof {
            assert(final(self)@ == mid);
        }
    }

    /// Moves all bits of `other` onto the tail of `self`, leaving `other`
    /// empty.  An unaligned tail word of `self` is merged with the head of
    /// `other` by cross-word shifting.
    pub fn append(&mut self, other: &mut BitVec)
        requires
            old(self).wf(),
            old(other).wf(),
            old(self)@.len() + old(other)@.len() <= usize::MAX,
        ensures
            final(self).wf(),
            final(other).wf(),
            final(self)@ == old(self)@ + old(other)@,
            final(other)@ == Seq::<bool>::empty(),
    {
        let a = self.nbits;
        let o = other.nbits;
        let total = a + o;
        let b: u32 = (a % 32) as u32;
        let ghost comb = old(self)@ + old(other)@;
        if b == 0 {
            self.storage.append(&mut other.storage);
            self.nbits = total;
            other.nbits = 0;
            proof {
                assert(other@ =~= Seq::<bool>::empty());
                assert(self.storage@.len() == blocks_spec(total as nat));
                assert forall|p: int| 0 <= p < 32 * self.storage@.len() implies #[trigger] sbit(
                    self.storage@,
                    p,
                ) == (p < total && comb[p]) by {
                    if p < a {
                        assert(p / 32 < blocks_spec(a as nat));
                        assert(sbit(self.storage@, p) == sbit(old(self).storage@, p));
                    } else {
                        let q = p - a;
                        assert(p / 32 == a / 32 + q / 32 && p % 32 == q % 32);
                        assert(sbit(self.storage@, p) == sbit(old(other).storage@, q));
                        if q < o {
                            assert(sbit(old(other).storage@, q) == old(other)@[q]);
                        } else {
                            assert(!nth_bit(
                                old(other).storage@[q / 32],
                                (q % 32) as u32,
                            ));
                        }
                    }
                }
                assert(self.wf());
                assert forall|p: int| 0 <= p < total implies self@[p] == comb[p] by {
                    assert(self@[p] == sbit(self.storage@, p));
                }
                assert(self@ =~= comb);
            }
        } else {
            let on = other.storage.len();
            let mut k: usize = 0;
            while k < on
                invariant
                    old(self).wf(),
                    old(other).wf(),
                    0 < b < 32,
                    b == a % 32,
                    a == old(self).nbits,
                    o == old(other).nbits,
                    self.nbits == a,
                    other.nbits == o,
                    other.storage@ == old(other).storage@,
                    on == other.storage@.len(),
                    total == a + o,
                    total <= usize::MAX,
                    comb == old(self)@ + old(other)@,
                    k <= on,
                    self.storage@.len() == old(self).storage@.len() + k,
                    self.storage@.len() >= 1,
                    32 * (self.storage@.len() - 1) + b == a + 32 * k,
                    forall|p: int|
                        0 <= p < 32 * self.storage@.len() ==> #[trigger] sbit(self.storage@, p)
                            == (p < a + 32 * k && p < total && comb[p]),
                decreases on - k,
            {
                let block = other.storage[k];
                let l = self.storage.len();
                let last = self.storage[l - 1];
                let merged = last | (block << b);
                let ghost prev = self.storage@;
                self.storage[l - 1] = merged;
                self.storage.push(block >> (32 - b));
                proof {
                    let ghost s32: u32 = ((32 - b) as u32);
                    lemma_bit_shl_or(last, block, b);
                    lemma_bit_shr(block, s32);
                    let l = l as int;
                    assert forall|p: int|
                        0 <= p < 32 * self.storage@.len() implies #[trigger] sbit(
                        self.storage@,
                        p,
                    ) == (p < a + 32 * (k + 1) && p < total && comb[p]) by {
                        let j = p % 32;
                        if p < 32 * (l - 1) {
                            assert(p / 32 < l - 1);
                            assert(sbit(self.storage@, p) == sbit(prev, p));
                        } else if p < 32 * l {
                            assert(p / 32 == l - 1);
                            assert(self.storage@[p / 32] == merged);
                            assert(nth_bit(merged, (p % 32) as u32) == (nth_bit(
                                last,
                                (p % 32) as u32,
                            ) || (b <= p % 32 && nth_bit(block, (p % 32 - b) as u32))));
                            assert(sbit(prev, p) == nth_bit(last, (p % 32) as u32));
                            if b <= j {
                                let q = 32 * k + (j - b);
                                assert(q / 32 == k && q % 32 == j - b);
                                assert(nth_bit(block, (j - b) as u32) == sbit(
                                    old(other).storage@,
                                    q,
                                ));
                                assert(p == a + q - 32 * k + 32 * k);
                                if q < o {
                                    assert(sbit(old(other).storage@, q) == old(other)@[q]);
                                } else {
                                    assert(!nth_bit(old(other).storage@[q / 32], (q % 32) as u32));
                                }
                            }
                        } else {
                            assert(p / 32 == l);
                            assert(self.storage@[p / 32] == block >> s32);
                            assert(nth_bit(block >> s32, (p % 32) as u32) == (p % 32 + s32 < 32
                                && nth_bit(block, (p % 32 + s32) as u32)));
                            if j < b {
                                let q = 32 * k + (j + 32 - b);
                                assert(q / 32 == k && q % 32 == j + 32 - b);
                                assert(nth_bit(block, (j + 32 - b) as u32) == sbit(
                                    old(other).storage@,
                                    q,
                                ));
                                if q < o {
                                    assert(sbit(old(other).storage@, q) == old(other)@[q]);
                                } else {
                                    assert(!nth_bit(old(other).storage@[q / 32], (q % 32) as u32));
                                }
                            }
                        }
                    }
                }
                k = k + 1;
            }
            self.nbits = total;
            other.nbits = 0;
            other.storage.clear();
            let nb = blocks_for_bits(total);
            let ghost prepop = self.storage@;
            if self.storage.len() > nb {
                self.storage.pop();
            }
            proof {
                assert(self.storage@.len() == blocks_spec(total as nat));
                assert forall|p: int| 0 <= p < 32 * self.storage@.len() implies #[trigger] sbit(
                    self.storage@,
                    p,
                ) == (p < total && comb[p]) by {
                    assert(p / 32 < self.storage@.len());
                    assert(sbit(self.storage@, p) == sbit(prepop, p));
                }
                assert forall|kk: int, bb: u32|
                    0 <= kk < self.storage@.len() && bb < 32 && 32 * kk + bb >= self.nbits implies !(
                #[trigger] nth_bit(self.storage@[kk], bb)) by {
                    let p = 32 * kk + bb;
                    assert(p / 32 == kk && p % 32 == bb);
                    assert(sbit(self.storage@, p) == (p < total && comb[p]));
                }
                assert(self.wf());
                assert forall|p: int| 0 <= p < total implies self@[p] == comb[p] by {
                    assert(self@[p] == sbit(self.storage@, p));
                }
                assert(self@ =~= comb);
                assert(other@ =~= Seq::<bool>::empty());
            }
        }
    }

    /// Splits the vector in two at `at`, keeping `[0, at)` in place and
    /// returning `[at, len)`.  A split inside a word realigns every later
    /// word by cross-word shifting; a split on a word boundary moves whole
    /// words.
    pub fn split_off(&mut self, at: usize) -> (other: BitVec)
        requires
            old(self).wf(),
            at <= old(self)@.len(),
        ensures
            final(self).wf(),
            other.wf(),
            final(self)@ == old(self)@.subrange(0, at as int),
            other@ == old(self)@.subrange(at as int, old(self)@.len() as int),
    {
        let len = self.nbits;
        if at == len {
            let other = BitVec::new();
            proof {
                assert(final(self)@ =~= old(self)@.subrange(0, at as int));
                assert(other@ =~= old(self)@.subrange(at as int, len as int));
            }
            return other;
        }
        let w: usize = at / 32;
        let b: u32 = (at % 32) as u32;
        let mut other = BitVec::new();
        proof {
            assert(other@.len() == 0);
            assert(other.nbits == 0);
            assert(other.storage@.len() == 0);
        }
        other.nbits = len - at;
        self.nbits = at;
        if b == 0 {
            other.storage = self.storage.split_off(w);
            proof {
                assert(self.storage@.len() == blocks_spec(at as nat));
                assert(other.storage@.len() == blocks_spec((len - at) as nat));
                assert(self.wf());
                assert forall|kk: int, bb: u32|
                    0 <= kk < other.storage@.len() && bb < 32 && 32 * kk + bb >= other.nbits implies !(
                #[trigger] nth_bit(other.storage@[kk], bb)) by {
                    assert(other.storage@[kk] == old(self).storage@[w + kk]);
                    assert(32 * (w + kk) + bb >= len);
                }
                assert(other.wf());
                assert forall|p: int| 0 <= p < at implies self@[p] == old(self)@[p] by {
                    assert(p / 32 < w);
                }
                assert(final(self)@ =~= old(self)@.subrange(0, at as int));
                assert forall|p: int| 0 <= p < len - at implies other@[p] == old(self)@[at + p] by {
                    assert((at + p) / 32 == w + p / 32 && (at + p) % 32 == p % 32);
                    assert(other.storage@[p / 32] == old(self).storage@[(at + p) / 32]);
                }
                assert(other@ =~= old(self)@.subrange(at as int, len as int));
            }
        } else {
            let sl = self.storage.len();
            assert(w < sl);
            let ghost oldstore = self.storage@;
            let mut idx: usize = w + 1;
            let mut last = self.storage[w];
            while idx < sl
                invariant
                    old(self).wf(),
                    0 < b < 32,
                    b == at % 32,
                    w == at / 32,
                    at < len,
                    len == old(self).nbits,
                    oldstore == old(self).storage@,
                    sl == oldstore.len(),
                    self.storage@ == oldstore,
                    self.nbits == at,
                    other.nbits == len - at,
                    w < idx <= sl,
                    last == oldstore[idx - 1],
                    other.storage@.len() == idx - w - 1,
                    forall|p: int|
                        0 <= p < 32 * other.storage@.len() ==> #[trigger] sbit(other.storage@, p)
                            == (at + p < 32 * sl && sbit(oldstore, at + p)),
                decreases sl - idx,
            {
                let cur = self.storage[idx];
                let pushed = (last >> b) | (cur << (32 - b));
                let ghost prev = other.storage@;
                other.storage.push(pushed);
                proof {
                    lemma_bit_split_word(last, cur, b);
                    let ol = other.storage@.len() as int;
                    assert forall|p: int|
                        0 <= p < 32 * ol implies #[trigger] sbit(other.storage@, p) == (at + p < 32
                        * sl && sbit(oldstore, at + p)) by {
                        if p < 32 * (ol - 1) {
                            assert(p / 32 < ol - 1);
                            assert(sbit(other.storage@, p) == sbit(prev, p));
                        } else {
                            let j = p % 32;
                            assert(p / 32 == ol - 1);
                            assert(other.storage@[p / 32] == pushed);
                            let q = at + p;
                            if j + b < 32 {
                                assert(nth_bit(pushed, (j as u32)) == nth_bit(
                                    last,
                                    (j + b) as u32,
                                ));
                                assert(q == 32 * (idx - 1) + (j + b));
                                assert(q / 32 == idx - 1 && q % 32 == j + b);
                            } else {
                                assert(nth_bit(pushed, (j as u32)) == nth_bit(
                                    cur,
                                    (j + b - 32) as u32,
                                ));
                                assert(q == 32 * idx + (j + b - 32));
                                assert(q / 32 == idx && q % 32 == j + b - 32);
                            }
                        }
                    }
                }
                last = cur;
                idx = idx + 1;
            }
            let pushed = last >> b;
            let ghost prev = other.storage@;
            other.storage.push(pushed);
            proof {
                lemma_bit_shr(last, b);
                let ol = other.storage@.len() as int;
                assert(ol == sl - w);
                assert forall|p: int|
                    0 <= p < 32 * ol implies #[trigger] sbit(other.storage@, p) == (at + p < 32
                    * sl && sbit(oldstore, at + p)) by {
                    if p < 32 * (ol - 1) {
                        assert(p / 32 < ol - 1);
                        assert(sbit(other.storage@, p) == sbit(prev, p));
                    } else {
                        let j = p % 32;
                        assert(p / 32 == ol - 1);
                        assert(other.storage@[p / 32] == pushed);
                        let q = at + p;
                        if j + b < 32 {
                            assert(nth_bit(pushed, (j as u32)) == nth_bit(last, (j + b) as u32));
                            assert(q == 32 * (sl - 1) + (j + b));
                            assert(q / 32 == sl - 1 && q % 32 == j + b);
                        } else {
                            assert(!nth_bit(pushed, (j as u32)));
                            assert(at + p >= 32 * sl);
                        }
                    }
                }
            }
            let onb = blocks_for_bits(len - at);
            let ghost prepop = other.storage@;
            if other.storage.len() > onb {
                other.storage.pop();
            }
            proof {
                assert(other.storage@.len() == blocks_spec((len - at) as nat));
                assert forall|p: int|
                    0 <= p < 32 * other.storage@.len() implies #[trigger] sbit(other.storage@, p)
                    == (at + p < 32 * sl && sbit(oldstore, at + p)) by {
                    assert(p / 32 < other.storage@.len());
                    assert(sbit(other.storage@, p) == sbit(prepop, p));
                }
                assert forall|kk: int, bb: u32|
                    0 <= kk < other.storage@.len() && bb < 32 && 32 * kk + bb >= other.nbits implies !(
                #[trigger] nth_bit(other.storage@[kk], bb)) by {
                    let p = 32 * kk + bb;
                    assert(p / 32 == kk && p % 32 == bb);
                    assert(sbit(other.storage@, p) == (at + p < 32 * sl && sbit(oldstore, at + p)));
                    if at + p < 32 * sl {
                        let q = at + p;
                        assert(q >= len);
                        assert(!nth_bit(oldstore[q / 32], (q % 32) as u32));
                    }
                }
                assert(other.wf());
                assert forall|p: int| 0 <= p < len - at implies other@[p] == old(self)@[at + p] by {
                    assert(other@[p] == sbit(other.storage@, p));
                    let q = at + p;
                    assert(sbit(oldstore, q) == old(self)@[q]);
                }
                assert(other@ =~= old(self)@.subrange(at as int, len as int));
            }
            self.storage.truncate(w + 1);
            proof {
                assert(self.storage@.len() == blocks_spec(at as nat));
            }
            let ghost preself = self@;
            self.fix_last_block();
            proof {
                assert(final(self)@ == preself);
                assert forall|p: int| 0 <= p < at implies preself[p] == old(self)@[p] by {
                    assert(p / 32 <= w);
                }
                assert(final(self)@ =~= old(self)@.subrange(0, at as int));
            }
        }
        other
    }

    /// Returns the capacity in bits: at least the current length.
    pub fn capacity(&self) -> (r: usize)
        requires
            self.wf(),
        ensures
            r >= self@.len(),
    {
        let c = vec_capacity(&self.storage);
        if c > usize::MAX / 32 {
            usize::MAX
        } else {
            c * 32
        }
    }

    /// Reserves room for at least `additional` more bits; the contents are
    /// unchanged.  The new total bit count must not overflow `usize`.
    pub fn reserve(&mut self, additional: usize)
        requires
            old(self).wf(),
            old(self)@.len() + additional <= usize::MAX,
        ensures
            final(self).wf(),
            final(self)@ == old(self)@,
    {
        let desired = self.nbits + additional;
        let nb = blocks_for_bits(desired);
        let storage_len = self.storage.len();
        if nb > storage_len {
            self.storage.reserve(nb - storage_len);
        }
        proof {
            assert(final(self)@ =~= old(self)@);
        }
    }

    /// Reserves room for exactly `additional` more bits; the contents are
    /// unchanged.  The new total bit count must not overflow `usize`.
    pub fn reserve_exact(&mut self, additional: usize)
        requires
            old(self).wf(),
            old(self)@.len() + additional <= usize::MAX,
        ensures
            final(self).wf(),
            final(self)@ == old(self)@,
    {
        let desired = self.nbits + additional;
        let nb = blocks_for_bits(desired);
        let storage_len = self.storage.len();
        if nb > storage_len {
            assert(nb <= usize::MAX / 8);
            vec_reserve_exact(&mut self.storage, nb - storage_len);
        }
        proof {
            assert(final(self)@ =~= old(self)@);
        }
    }
}

/// A finite, restartable cursor over the bits of a vector, running forward
/// or backward in index order.
pub struct Iter<'a> {
    bit_vec: &'a BitVec,
    next_idx: usize,
    end_idx: usize,
}

impl<'a> Iter<'a> {
    /// The cursor points into a well-formed vector and its bounds are in
    /// order.
    pub closed spec fn wf(&self) -> bool {
        &&& self.bit_vec.wf()
        &&& self.next_idx <= self.end_idx <= self.bit_vec@.len()
    }

    /// The bits not yet yielded from either end.
    pub closed spec fn remaining(&self) -> Seq<bool> {
        self.bit_vec@.subrange(self.next_idx as int, self.end_idx as int)
    }

    /// Yields the next bit from the front, or `None` when the cursor is
    /// exhausted.
    pub fn next(&mut self) -> (r: Option<bool>)
        requires
            old(self).wf(),
        ensures
            final(self).wf(),
            old(self).remaining().len() == 0 ==> r == None::<bool> && final(self).remaining()
                == old(self).remaining(),
            old(self).remaining().len() > 0 ==> r == Some(old(self).remaining()[0])
                && final(self).remaining() == old(self).remaining().drop_first(),
    {
        if self.next_idx != self.end_idx {
            let idx = self.next_idx;
            self.next_idx = idx + 1;
            let r = match self.bit_vec.get(idx) {
                Some(b) => b,
                None => false,
            };
            proof {
                assert(final(self).remaining() =~= old(self).remaining().drop_first());
            }
            Some(r)
        } else {
            None
        }
    }

    /// Yields the next bit from the back, or `None` when the cursor is
    /// exhausted.
    pub fn next_back(&mut self) -> (r: Option<bool>)
        requires
            old(self).wf(),
        ensures
            final(self).wf(),
            old(self).remaining().len() == 0 ==> r == None::<bool> && final(self).remaining()
                == old(self).remaining(),
            old(self).remaining().len() > 0 ==> r == Some(old(self).remaining().last())
                && final(self).remaining() == old(self).remaining().drop_last(),
    {
        if self.next_idx != self.end_idx {
            let idx = self.end_idx - 1;
            self.end_idx = idx;
            let r = match self.bit_vec.get(idx) {
                Some(b) => b,
                None => false,
            };
            proof {
                assert(final(self).remaining() =~= old(self).remaining().drop_last());
            }
            Some(r)
        } else {
            None
        }
    }
}

impl BitVec {
    /// Returns a cursor over all bits in index order.
    pub fn iter(&self) -> (it: Iter<'_>)
        requires
            self.wf(),
        ensures
            it.wf(),
            it.remaining() == self@,
    {
        let it = Iter { bit_vec: self, next_idx: 0, end_idx: self.nbits };
        proof {
            assert(it.remaining() =~= self@);
        }
        it
    }
}

impl Clone for BitVec {
    /// A deep copy: the clone holds the same bits.
    fn clone(&self) -> (r: Self)
        ensures
            r@ == self@,
            self.wf() ==> r.wf(),
    {
        let mut storage: Vec<u32> = Vec::new();
        let mut k: usize = 0;
        let n = self.storage.len();
        while k < n
            invariant
                n == self.storage@.len(),
                k <= n,
                storage@ == self.storage@.subrange(0, k as int),
            decreases n - k,
        {
            storage.push(self.storage[k]);
            proof {
                assert(storage@ =~= self.storage@.subrange(0, k + 1));
            }
            k = k + 1;
        }
        proof {
            assert(storage@ =~= self.storage@);
        }
        let r = BitVec { storage, nbits: self.nbits };
        proof {
            assert(r@ =~= self@);
        }
        r
    }
}

impl Default for BitVec {
    /// The empty bit vector.
    fn default() -> (r: Self)
        ensures
            r.wf(),
            r@ == Seq::<bool>::empty(),
    {
        BitVec::new()
    }
}

impl PartialEq for BitVec {
    /// Two vectors are equal when they have the same length and the same
    /// bits.
    fn eq(&self, other: &Self) -> (r: bool)
    {
        if self.nbits != other.nbits {
            return false;
        }
        let n = self.storage.len();
        let on = other.storage.len();
        if n != on {
            return false;
        }
        let mut k: usize = 0;
        while k < n
            invariant
                n == self.storage@.len(),
                on == other.storage@.len(),
                n == on,
                k <= n,
                forall|t: int| 0 <= t < k ==> self.storage@[t] == other.storage@[t],
            decreases n - k,
        {
            if self.storage[k] != other.storage[k] {
                return false;
            }
            k = k + 1;
        }
        proof {
            assert(self.storage@ =~= other.storage@);
        }
        true
    }
}

impl vstd::std_specs::cmp::PartialEqSpecImpl for BitVec {
    closed spec fn obeys_eq_spec() -> bool {
        true
    }

    closed spec fn eq_spec(&self, other: &Self) -> bool {
        self.nbits == other.nbits && self.storage@ == other.storage@
    }
}

/// Relies on Vec::capacity: a vector's capacity is at least its length, and
/// the call has no other effect.
#[verifier::external_body]
fn vec_capacity(v: &Vec<u32>) -> (r: usize)
    ensures
        r >= v@.len(),
{
    v.capacity()
}

/// Relies on Vec::reserve_exact: the vector's contents are unchanged.  The
/// bound on the total element count keeps the new capacity within the range
/// the allocator accepts.
#[verifier::external_body]
fn vec_reserve_exact(v: &mut Vec<u32>, additional: usize)
    requires
        old(v)@.len() + additional <= usize::MAX / 8,
    ensures
        final(v)@ == old(v)@,
{
    v.reserve_exact(additional)
}


proof fn lemma_byte_reassemble(b: u8)
    by (bit_vector)
    ensures
        ((if byte_bit(b, 7) { 1u8 << 7 } else { 0u8 }) | (if byte_bit(b, 6) { 1u8 << 6 } else { 0u8 })
            | (if byte_bit(b, 5) { 1u8 << 5 } else { 0u8 }) | (if byte_bit(b, 4) { 1u8 << 4 } else { 0u8 })
            | (if byte_bit(b, 3) { 1u8 << 3 } else { 0u8 }) | (if byte_bit(b, 2) { 1u8 << 2 } else { 0u8 })
            | (if byte_bit(b, 1) { 1u8 << 1 } else { 0u8 }) | (if byte_bit(b, 0) { 1u8 << 0 } else { 0u8 }))
            == b,
{
}

/// Byte round trip: reading a byte sequence as bits and packing those bits
/// back into bytes returns the original sequence unchanged.
pub proof fn lemma_bytes_round_trip(x: Seq<u8>)
    ensures
        bits_to_bytes(bytes_to_bits(x)) == x,
{
    let s = bytes_to_bits(x);
    assert(s.len() == x.len() * 8);
    assert forall|i: int| 0 <= i < x.len() implies byte_from_bits(s, i) == x[i] by {
        assert(s[8 * i + 0] == byte_bit(x[i], 7));
        assert(s[8 * i + 1] == byte_bit(x[i], 6));
        assert(s[8 * i + 2] == byte_bit(x[i], 5));
        assert(s[8 * i + 3] == byte_bit(x[i], 4));
        assert(s[8 * i + 4] == byte_bit(x[i], 3));
        assert(s[8 * i + 5] == byte_bit(x[i], 2));
        assert(s[8 * i + 6] == byte_bit(x[i], 1));
        assert(s[8 * i + 7] == byte_bit(x[i], 0));
        lemma_byte_reassemble(x[i]);
    }
    assert(bits_to_bytes(s) =~= x);
}

/// De Morgan identities for the bit-wise boolean algebra: over equal-length
/// bit sequences, the complement of a union is the intersection of the
/// complements, the complement of an intersection is the union of the
/// complements, and a difference is the intersection with the complement.
pub proof fn lemma_de_morgan(a: Seq<bool>, b: Seq<bool>)
    requires
        a.len() == b.len(),
    ensures
        Seq::new(a.len(), |i: int| !(a[i] || b[i])) == Seq::new(a.len(), |i: int| !a[i] && !b[i]),
        Seq::new(a.len(), |i: int| !(a[i] && b[i])) == Seq::new(a.len(), |i: int| !a[i] || !b[i]),
        Seq::new(a.len(), |i: int| a[i] && !b[i]) == Seq::new(a.len(), |i: int| !(!a[i] || b[i])),
{
    assert(Seq::new(a.len(), |i: int| !(a[i] || b[i])) =~= Seq::new(
        a.len(),
        |i: int| !a[i] && !b[i],
    ));
    assert(Seq::new(a.len(), |i: int| !(a[i] && b[i])) =~= Seq::new(
        a.len(),
        |i: int| !a[i] || !b[i],
    ));
    assert(Seq::new(a.len(), |i: int| a[i] && !b[i]) =~= Seq::new(
        a.len(),
        |i: int| !(!a[i] || b[i]),
    ));
}


proof fn lemma_byte_bits(b0: bool, b1: bool, b2: bool, b3: bool, b4: bool, b5: bool, b6: bool, b7: bool)
    by (bit_vector)
    ensures
        byte_bit((if b0 {
            1u8 << 7
        } else {
            0u8
        }) | (if b1 {
            1u8 << 6
        } else {
            0u8
        }) | (if b2 {
            1u8 << 5
        } else {
            0u8
        }) | (if b3 {
            1u8 << 4
        } else {
            0u8
        }) | (if b4 {
            1u8 << 3
        } else {
            0u8
        }) | (if b5 {
            1u8 << 2
        } else {
            0u8
        }) | (if b6 {
            1u8 << 1
        } else {
            0u8
        }) | (if b7 {
            1u8 << 0
        } else {
            0u8
        }), 7) == b0,
        byte_bit((if b0 {
            1u8 << 7
        } else {
            0u8
        }) | (if b1 {
            1u8 << 6
        } else {
            0u8
        }) | (if b2 {
            1u8 << 5
        } else {
            0u8
        }) | (if b3 {
            1u8 << 4
        } else {
            0u8
        }) | (if b4 {
            1u8 << 3
        } else {
            0u8
        }) | (if b5 {
            1u8 << 2
        } else {
            0u8
        }) | (if b6 {
            1u8 << 1
        } else {
            0u8
        }) | (if b7 {
            1u8 << 0
        } else {
            0u8
        }), 6) == b1,
        byte_bit((if b0 {
            1u8 << 7
        } else {
            0u8
        }) | (if b1 {
            1u8 << 6
        } else {
            0u8
        }) | (if b2 {
            1u8 << 5
        } else {
            0u8
        }) | (if b3 {
            1u8 << 4
        } else {
            0u8
        }) | (if b4 {
            1u8 << 3
        } else {
            0u8
        }) | (if b5 {
            1u8 << 2
        } else {
            0u8
        }) | (if b6 {
            1u8 << 1
        } else {
            0u8
        }) | (if b7 {
            1u8 << 0
        } else {
            0u8
        }), 5) == b2,
        byte_bit((if b0 {
            1u8 << 7
        } else {
            0u8
        }) | (if b1 {
            1u8 << 6
        } else {
            0u8
        }) | (if b2 {
            1u8 << 5
        } else {
            0u8
        }) | (if b3 {
            1u8 << 4
        } else {
            0u8
        }) | (if b4 {
            1u8 << 3
        } else {
            0u8
        }) | (if b5 {
            1u8 << 2
        } else {
            0u8
        }) | (if b6 {
            1u8 << 1
        } else {
            0u8
        }) | (if b7 {
            1u8 << 0
        } else {
            0u8
        }), 4) == b3,
        byte_bit((if b0 {
            1u8 << 7
        } else {
            0u8
        }) | (if b1 {
            1u8 << 6
        } else {
            0u8
        }) | (if b2 {
            1u8 << 5
        } else {
            0u8
        }) | (if b3 {
            1u8 << 4
        } else {
            0u8
        }) | (if b4 {
            1u8 << 3
        } else {
            0u8
        }) | (if b5 {
            1u8 << 2
        } else {
            0u8
        }) | (if b6 {
            1u8 << 1
        } else {
            0u8
        }) | (if b7 {
            1u8 << 0
        } else {
            0u8
        }), 3) == b4,
        byte_bit((if b0 {
            1u8 << 7
        } else {
            0u8
        }) | (if b1 {
            1u8 << 6
        } else {
            0u8
        }) | (if b2 {
            1u8 << 5
        } else {
            0u8
        }) | (if b3 {
            1u8 << 4
        } else {
            0u8
        }) | (if b4 {
            1u8 << 3
        } else {
            0u8
        }) | (if b5 {
            1u8 << 2
        } else {
            0u8
        }) | (if b6 {
            1u8 << 1
        } else {
            0u8
        }) | (if b7 {
            1u8 << 0
        } else {
            0u8
        }), 2) == b5,
        byte_bit((if b0 {
            1u8 << 7
        } else {
            0u8
        }) | (if b1 {
            1u8 << 6
        } else {
            0u8
        }) | (if b2 {
            1u8 << 5
        } else {
            0u8
        }) | (if b3 {
            1u8 << 4
        } else {
            0u8
        }) | (if b4 {
            1u8 << 3
        } else {
            0u8
        }) | (if b5 {
            1u8 << 2
        } else {
            0u8
        }) | (if b6 {
            1u8 << 1
        } else {
            0u8
        }) | (if b7 {
            1u8 << 0
        } else {
            0u8
        }), 1) == b6,
        byte_bit((if b0 {
            1u8 << 7
        } else {
            0u8
        }) | (if b1 {
            1u8 << 6
        } else {
            0u8
        }) | (if b2 {
            1u8 << 5
        } else {
            0u8
        }) | (if b3 {
            1u8 << 4
        } else {
            0u8
        }) | (if b4 {
            1u8 << 3
        } else {
            0u8
        }) | (if b5 {
            1u8 << 2
        } else {
            0u8
        }) | (if b6 {
            1u8 << 1
        } else {
            0u8
        }) | (if b7 {
            1u8 << 0
        } else {
            0u8
        }), 0) == b7,
{
}

/// Packing bits into bytes and reading them back as bits returns the
/// original bits, padded with false to a whole number of bytes.
pub proof fn lemma_bits_unpack(s: Seq<bool>)
    ensures
        bytes_to_bits(bits_to_bytes(s)).len() == 8 * bytes_for_bits(s.len()),
        s.len() <= 8 * bytes_for_bits(s.len()) < s.len() + 8,
        forall|q: int|
            0 <= q < 8 * bytes_for_bits(s.len()) ==> #[trigger] bytes_to_bits(bits_to_bytes(s))[q]
                == (q < s.len() && s[q]),
{
    let bytes = bits_to_bytes(s);
    let c = bytes_to_bits(bytes);
    assert(bytes.len() == bytes_for_bits(s.len()));
    assert forall|q: int| 0 <= q < c.len() implies #[trigger] c[q] == (q < s.len() && s[q]) by {
        let i = q / 8;
        let k = q % 8;
        assert(q == 8 * i + k);
        assert(0 <= i < bytes.len());
        assert(c[q] == byte_bit(bytes[i], (7 - k) as u8));
        assert(bytes[i] == byte_from_bits(s, i));
        let b0 = 0 <= 8 * i + 0 < s.len() && s[8 * i + 0];
        let b1 = 0 <= 8 * i + 1 < s.len() && s[8 * i + 1];
        let b2 = 0 <= 8 * i + 2 < s.len() && s[8 * i + 2];
        let b3 = 0 <= 8 * i + 3 < s.len() && s[8 * i + 3];
        let b4 = 0 <= 8 * i + 4 < s.len() && s[8 * i + 4];
        let b5 = 0 <= 8 * i + 5 < s.len() && s[8 * i + 5];
        let b6 = 0 <= 8 * i + 6 < s.len() && s[8 * i + 6];
        let b7 = 0 <= 8 * i + 7 < s.len() && s[8 * i + 7];
        lemma_byte_bits(b0, b1, b2, b3, b4, b5, b6, b7);
        assert(byte_from_bits(s, i) == (if b0 {
            1u8 << 7
        } else {
            0u8
        }) | (if b1 {
            1u8 << 6
        } else {
            0u8
        }) | (if b2 {
            1u8 << 5
        } else {
            0u8
        }) | (if b3 {
            1u8 << 4
        } else {
            0u8
        }) | (if b4 {
            1u8 << 3
        } else {
            0u8
        }) | (if b5 {
            1u8 << 2
        } else {
            0u8
        }) | (if b6 {
            1u8 << 1
        } else {
            0u8
        }) | (if b7 {
            1u8 << 0
        } else {
            0u8
        }));
        if k == 0 {
            assert(c[q] == b0);
        } else if k == 1 {
            assert(c[q] == b1);
        } else if k == 2 {
            assert(c[q] == b2);
        } else if k == 3 {
            assert(c[q] == b3);
        } else if k == 4 {
            assert(c[q] == b4);
        } else if k == 5 {
            assert(c[q] == b5);
        } else if k == 6 {
            assert(c[q] == b6);
        } else {
            assert(c[q] == b7);
        }
    }
}


/// A packed byte depends only on its own window of eight stream positions.
pub proof fn lemma_byte_window(b1: Seq<bool>, b2: Seq<bool>, i: int)
    requires
        (0 <= 8 * i + 0 < b1.len() && b1[8 * i + 0]) == (0 <= 8 * i + 0
            < b2.len() && b2[8 * i + 0]),
        (0 <= 8 * i + 1 < b1.len() && b1[8 * i + 1]) == (0 <= 8 * i + 1
            < b2.len() && b2[8 * i + 1]),
        (0 <= 8 * i + 2 < b1.len() && b1[8 * i + 2]) == (0 <= 8 * i + 2
            < b2.len() && b2[8 * i + 2]),
        (0 <= 8 * i + 3 < b1.len() && b1[8 * i + 3]) == (0 <= 8 * i + 3
            < b2.len() && b2[8 * i + 3]),
        (0 <= 8 * i + 4 < b1.len() && b1[8 * i + 4]) == (0 <= 8 * i + 4
            < b2.len() && b2[8 * i + 4]),
        (0 <= 8 * i + 5 < b1.len() && b1[8 * i + 5]) == (0 <= 8 * i + 5
            < b2.len() && b2[8 * i + 5]),
        (0 <= 8 * i + 6 < b1.len() && b1[8 * i + 6]) == (0 <= 8 * i + 6
            < b2.len() && b2[8 * i + 6]),
        (0 <= 8 * i + 7 < b1.len() && b1[8 * i + 7]) == (0 <= 8 * i + 7
            < b2.len() && b2[8 * i + 7]),
    ensures
        byte_from_bits(b1, i) == byte_from_bits(b2, i),
{
    assert(bit_term(b1, 8 * i + 0, 0) == bit_term(b2, 8 * i + 0, 0));
    assert(bit_term(b1, 8 * i + 1, 1) == bit_term(b2, 8 * i + 1, 1));
    assert(bit_term(b1, 8 * i + 2, 2) == bit_term(b2, 8 * i + 2, 2));
    assert(bit_term(b1, 8 * i + 3, 3) == bit_term(b2, 8 * i + 3, 3));
    assert(bit_term(b1, 8 * i + 4, 4) == bit_term(b2, 8 * i + 4, 4));
    assert(bit_term(b1, 8 * i + 5, 5) == bit_term(b2, 8 * i + 5, 5));
    assert(bit_term(b1, 8 * i + 6, 6) == bit_term(b2, 8 * i + 6, 6));
    assert(bit_term(b1, 8 * i + 7, 7) == bit_term(b2, 8 * i + 7, 7));
}

/// A window of eight false or absent stream positions packs to a zero
/// byte.
pub proof fn lemma_byte_zeros(d: Seq<bool>, i: int)
    requires
        !(0 <= 8 * i + 0 < d.len() && d[8 * i + 0]),
        !(0 <= 8 * i + 1 < d.len() && d[8 * i + 1]),
        !(0 <= 8 * i + 2 < d.len() && d[8 * i + 2]),
        !(0 <= 8 * i + 3 < d.len() && d[8 * i + 3]),
        !(0 <= 8 * i + 4 < d.len() && d[8 * i + 4]),
        !(0 <= 8 * i + 5 < d.len() && d[8 * i + 5]),
        !(0 <= 8 * i + 6 < d.len() && d[8 * i + 6]),
        !(0 <= 8 * i + 7 < d.len() && d[8 * i + 7]),
    ensures
        byte_from_bits(d, i) == 0,
{
    assert(bit_term(d, 8 * i + 0, 0) == 0u8);
    assert(bit_term(d, 8 * i + 1, 1) == 0u8);
    assert(bit_term(d, 8 * i + 2, 2) == 0u8);
    assert(bit_term(d, 8 * i + 3, 3) == 0u8);
    assert(bit_term(d, 8 * i + 4, 4) == 0u8);
    assert(bit_term(d, 8 * i + 5, 5) == 0u8);
    assert(bit_term(d, 8 * i + 6, 6) == 0u8);
    assert(bit_term(d, 8 * i + 7, 7) == 0u8);
    assert(0u8 | 0u8 | 0u8 | 0u8 | 0u8 | 0u8 | 0u8 | 0u8 == 0u8) by (bit_vector);
}

} // verus!
