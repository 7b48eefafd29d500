//! How many low-order bits per channel a payload needs.

use crate::error::StegoError;
use crate::grid::BitWidth;
use vstd::arithmetic::div_mod::lemma_fundamental_div_mod;
use vstd::arithmetic::mul::{lemma_mul_inequality, lemma_mul_is_commutative, lemma_mul_is_distributive_add};
use vstd::prelude::*;

verus! {

/// The bits that a framed payload of `payload_len` bytes takes: the payload and
/// its 4-byte length prefix.
pub open spec fn bits_needed(payload_len: nat) -> nat {
    8 * (payload_len + 4)
}

/// The largest payload, in bytes, that `channels` channels hold at bit width
/// `k`; negative where not even the length prefix fits.
pub open spec fn capacity(channels: nat, k: int) -> int {
    (channels * k) / 8 - 4
}

/// `a / b`, rounded up.
pub open spec fn ceil_div(a: nat, b: nat) -> nat {
    if a % b == 0 {
        a / b
    } else {
        a / b + 1
    }
}

/// The bit width to embed a payload of `payload_len` bytes into `channels`
/// channels: the needed bits per channel, rounded up.
pub open spec fn plan_spec(payload_len: nat, channels: nat) -> Result<int, StegoError> {
    if channels == 0 {
        Err(StegoError::DegenerateInput)
    } else if bits_needed(payload_len) > 8 * channels {
        Err(StegoError::InsufficientCapacity)
    } else {
        Ok(ceil_div(bits_needed(payload_len), channels) as int)
    }
}

/// A payload fits a number of channels at a bit width exactly when its framed
/// bits are no more than the channels offer.
pub proof fn lemma_capacity_in_bits(payload_len: nat, channels: nat, k: int)
    requires
        0 <= k,
    ensures
        payload_len <= capacity(channels, k) <==> bits_needed(payload_len) <= channels * k,
{
    lemma_fundamental_div_mod(channels * k, 8);
}

/// The planned bit width is the smallest that holds the payload: it offers
/// enough bits, and every smaller width offers too few.
pub proof fn lemma_plan_is_smallest(payload_len: nat, channels: nat, j: int)
    requires
        plan_spec(payload_len, channels) is Ok,
    ensures
        1 <= plan_spec(payload_len, channels)->Ok_0 <= 8,
        bits_needed(payload_len) <= channels * plan_spec(payload_len, channels)->Ok_0,
        0 <= j < plan_spec(payload_len, channels)->Ok_0 ==> channels * j < bits_needed(payload_len),
{
    let needed = bits_needed(payload_len) as int;
    let c = channels as int;
    let k = plan_spec(payload_len, channels)->Ok_0;
    let q = needed / c;
    let r = needed % c;
    lemma_fundamental_div_mod(needed, c);
    lemma_mul_is_commutative(c, q);
    lemma_mul_is_distributive_add(c, q, 1);
    assert(c * k >= needed);
    assert(k >= 1) by {
        if k < 1 {
            assert(q == 0 && r == 0);
            assert(c * q == 0) by (nonlinear_arith)
                requires
                    q == 0,
            ;
        }
    }
    assert(k <= 8) by {
        if k > 8 {
            assert(c * 8 < needed) by {
                if r == 0 {
                    lemma_mul_inequality(9, q, c);
                    lemma_mul_is_commutative(c, 9);
                } else {
                    lemma_mul_inequality(8, q, c);
                    lemma_mul_is_commutative(c, 8);
                }
            }
        }
    }
    if 0 <= j < k {
        assert(c * j < needed) by {
            if r == 0 {
                lemma_mul_inequality(j + 1, q, c);
                lemma_mul_is_commutative(c, j + 1);
                lemma_mul_is_distributive_add(c, j, 1);
            } else {
                lemma_mul_inequality(j, q, c);
                lemma_mul_is_commutative(c, j);
            }
        }
    }
}

/// Chooses the smallest bit width at which a payload of `payload_len` bytes,
/// framed, fits `channel_count` channels.
///
/// Fails with `DegenerateInput` when there is no channel, and with
/// `InsufficientCapacity` when even 8 bits per channel are too few.
pub fn plan(payload_len: u32, channel_count: usize) -> (r: Result<BitWidth, StegoError>)
    ensures
        match r {
            Ok(w) => plan_spec(payload_len as nat, channel_count as nat) == Ok::<int, StegoError>(w@),
            Err(e) => plan_spec(payload_len as nat, channel_count as nat) == Err::<int, StegoError>(e),
        },
        r matches Ok(w) ==> {
            &&& bits_needed(payload_len as nat) <= channel_count * w@
            &&& channel_count * (w@ - 1) < bits_needed(payload_len as nat)
        },
{
    if channel_count == 0 {
        return Err(StegoError::DegenerateInput);
    }
    let needed: u64 = (payload_len as u64 + 4) * 8;
    let channels: u64 = channel_count as u64;
    let whole: u64 = needed / channels;
    let rest: u64 = needed % channels;
    proof {
        lemma_fundamental_div_mod(needed as int, channels as int);
        lemma_mul_is_commutative(channels as int, whole as int);
    }
    if whole > 8 || (whole == 8 && rest > 0) {
        assert(needed > 8 * channels) by (nonlinear_arith)
            requires
                needed == channels * whole + rest,
                channels > 0,
                whole > 8 || (whole == 8 && rest > 0),
        ;
        return Err(StegoError::InsufficientCapacity);
    }
    let bits: u8 = if rest > 0 { (whole + 1) as u8 } else { whole as u8 };
    proof {
        if whole < 8 {
            lemma_mul_inequality(whole as int + 1, 8, channels as int);
            lemma_mul_is_commutative(channels as int, whole as int + 1);
            lemma_mul_is_distributive_add(channels as int, whole as int, 1);
        }
        assert(plan_spec(payload_len as nat, channel_count as nat) == Ok::<int, StegoError>(bits as int));
        lemma_plan_is_smallest(payload_len as nat, channel_count as nat, bits as int - 1);
    }
    match BitWidth::new(bits) {
        Some(w) => Ok(w),
        None => Err(StegoError::InsufficientCapacity),
    }
}

} // verus!
