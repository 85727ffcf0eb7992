use crate::bitvec::{bits_to_bytes, bytes_to_bits, BitVec};
use vstd::prelude::*;

verus! {

/// An even repetition count split exactly in half: no majority exists, so
/// the decode fails rather than guess.
#[derive(Clone, Copy, Debug, PartialEq, Eq)]
pub struct UncorrectableError;

/// Each bit of `s` repeated `n` times.
pub open spec fn repeat_bits(s: Seq<bool>, n: nat) -> Seq<bool> {
    Seq::new(s.len() * n, |k: int| s[k / (n as int)])
}

/// Number of true bits in `s`.
pub open spec fn count_ones(s: Seq<bool>) -> nat
    decreases s.len(),
{
    if s.len() == 0 {
        0
    } else {
        count_ones(s.drop_last()) + if s.last() {
            1nat
        } else {
            0nat
        }
    }
}

/// Number of ones among the coded bits of logical bit `g`.
pub open spec fn group_ones(code: Seq<bool>, n: nat, g: int) -> nat {
    count_ones(code.subrange(g * n, g * n + n))
}

/// True iff the coded group of logical bit `g` is an exact tie, which can
/// only happen for an even `n`.
pub open spec fn group_tie(code: Seq<bool>, n: nat, g: int) -> bool {
    n % 2 == 0 && group_ones(code, n, g) == n / 2
}

/// True iff any complete coded group of `code` is an exact tie.
pub open spec fn any_tie(code: Seq<bool>, n: nat) -> bool {
    exists|g: int| 0 <= g < code.len() / n && #[trigger] group_tie(code, n, g)
}

/// The majority vote of each complete coded group; a trailing group shorter
/// than `n` is ignored.
pub open spec fn majority_bits(code: Seq<bool>, n: nat) -> Seq<bool> {
    Seq::new(code.len() / n, |g: int| group_ones(code, n, g) > n / 2)
}

/// Encodes a byte stream by repeating each bit `n` times.
pub fn encode(v: &Vec<u8>, n: usize) -> (r: Vec<u8>)
    requires
        1 <= n,
        v@.len() * 8 * n + 7 <= usize::MAX,
    ensures
        r@ == bits_to_bytes(repeat_bits(bytes_to_bits(v@), n as nat)),
{
    proof {
        assert(v@.len() * 8 <= v@.len() * 8 * n) by (nonlinear_arith)
            requires
                1 <= n,
        ;
    }
    let plain = BitVec::from_bytes(v.as_slice());
    let plen = plain.len();
    proof {
        assert(plen * n == v@.len() * 8 * n) by (nonlinear_arith)
            requires
                plen == v@.len() * 8,
        ;
    }
    let mut code = BitVec::with_capacity(plen * n);
    let mut i: usize = 0;
    while i < plen
        invariant
            plain.wf(),
            code.wf(),
            1 <= n,
            plen == plain@.len(),
            plen * n + 7 <= usize::MAX,
            i <= plen,
            i * n <= plen * n,
            code@ == repeat_bits(plain@, n as nat).subrange(0, (i * n) as int),
        decreases plen - i,
    {
        let bit = match plain.get(i) {
            Some(x) => x,
            None => false,
        };
        let mut j: usize = 0;
        proof {
            assert(i * n + n <= plen * n) by (nonlinear_arith)
                requires
                    i < plen,
                    1 <= n,
            ;
        }
        while j < n
            invariant
                plain.wf(),
                code.wf(),
                1 <= n,
                plen == plain@.len(),
                plen * n + 7 <= usize::MAX,
                i < plen,
                i * n + n <= plen * n,
                bit == plain@[i as int],
                j <= n,
                code@ == repeat_bits(plain@, n as nat).subrange(0, i * n + j),
            decreases n - j,
        {
            code.push(bit);
            proof {
                let rb = repeat_bits(plain@, n as nat);
                let k0 = i * n + j;
                assert(i * n + n <= rb.len()) by (nonlinear_arith)
                    requires
                        i < plen,
                        1 <= n,
                        rb.len() == plen * n,
                ;
                vstd::arithmetic::div_mod::lemma_fundamental_div_mod_converse(
                    k0 as int,
                    n as int,
                    i as int,
                    j as int,
                );
                assert(rb[k0 as int] == plain@[i as int]);
                assert(code@ =~= rb.subrange(0, k0 + 1));
            }
            j = j + 1;
        }
        proof {
            assert((i + 1) * n == i * n + n && (i + 1) * n <= plen * n) by (nonlinear_arith)
                requires
                    i < plen,
                    1 <= n,
            ;
        }
        i = i + 1;
    }
    proof {
        assert(plen * n == repeat_bits(plain@, n as nat).len());
        assert(i * n == plen * n) by (nonlinear_arith)
            requires
                i == plen,
        ;
        assert(code@ =~= repeat_bits(plain@, n as nat));
        assert(code@.len() + 7 <= usize::MAX);
    }
    code.to_bytes()
}

/// Decodes a byte stream by majority vote over each group of `n` coded
/// bits.  An exact tie in any group (possible only for even `n`) is an
/// unrecoverable condition and fails the whole call.
pub fn decode(v: &Vec<u8>, n: usize) -> (r: Result<Vec<u8>, UncorrectableError>)
    requires
        1 <= n,
        v@.len() * 8 + 7 <= usize::MAX,
    ensures
        match r {
            Ok(out) => !any_tie(bytes_to_bits(v@), n as nat) && out@ == bits_to_bytes(
                majority_bits(bytes_to_bits(v@), n as nat),
            ),
            Err(_) => any_tie(bytes_to_bits(v@), n as nat),
        },
{
    let code = BitVec::from_bytes(v.as_slice());
    let clen = code.len();
    let groups = clen / n;
    let mut plain = BitVec::with_capacity(groups);
    let mut g: usize = 0;
    while g < groups
        invariant
            code.wf(),
            plain.wf(),
            1 <= n,
            clen == code@.len(),
            clen + 7 <= usize::MAX,
            groups == clen / n,
            code@ == bytes_to_bits(v@),
            g <= groups,
            plain@.len() == g,
            forall|t: int| 0 <= t < g ==> !(#[trigger] group_tie(code@, n as nat, t)),
            forall|t: int|
                0 <= t < g ==> plain@[t] == (#[trigger] group_ones(code@, n as nat, t) > n / 2),
        decreases groups - g,
    {
        proof {
            vstd::arithmetic::div_mod::lemma_fundamental_div_mod(clen as int, n as int);
            assert((g + 1) * n <= groups * n) by (nonlinear_arith)
                requires
                    g < groups,
                    1 <= n,
            ;
            assert(groups * n <= clen);
            assert(g * n + n == (g + 1) * n) by (nonlinear_arith);
        }
        let base = g * n;
        let mut sum: usize = 0;
        let mut j: usize = 0;
        while j < n
            invariant
                code.wf(),
                1 <= n,
                clen == code@.len(),
                base == g * n,
                base + n <= clen,
                j <= n,
                sum <= j,
                sum == count_ones(code@.subrange(base as int, base + j)),
            decreases n - j,
        {
            let bit = match code.get(base + j) {
                Some(x) => x,
                None => false,
            };
            proof {
                let sub = code@.subrange(base as int, base + j + 1);
                assert(sub.drop_last() =~= code@.subrange(base as int, base + j));
                assert(sub.last() == code@[base + j]);
            }
            if bit {
                sum = sum + 1;
            }
            j = j + 1;
        }
        proof {
            assert(sum == group_ones(code@, n as nat, g as int));
        }
        let bit: bool;
        if n % 2 == 0 {
            if sum == n / 2 {
                proof {
                    assert(group_tie(code@, n as nat, g as int));
                }
                return Err(UncorrectableError);
            } else if sum > n / 2 {
                bit = true;
            } else {
                bit = false;
            }
        } else {
            bit = sum > n / 2;
        }
        plain.push(bit);
        g = g + 1;
    }
    proof {
        assert(plain@ =~= majority_bits(code@, n as nat));
        assert(!any_tie(code@, n as nat));
    }
    Ok(plain.to_bytes())
}

} // verus!
