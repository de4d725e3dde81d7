//! Proof-of-work rules: compact difficulty targets, the hash-to-target
//! comparison, per-header work, and the retarget policy.
//!
//! A compact value `bits` encodes a 256-bit target as an exponent byte and a
//! 23-bit mantissa.  A header meets its target when its hash — byte-reversed
//! into display order and read as a big-endian integer — is numerically at
//! most the target, the target is positive, and the target lies within the
//! network's proof-of-work limit.
//! Work is the capped quotient `2^256 / target`, a monotone measure of the
//! expected hashing effort, summed with saturation along a chain.

use vstd::prelude::*;
use vstd::arithmetic::power2::*;
use vstd::arithmetic::div_mod::*;
use vstd::arithmetic::mul::*;
use vstd::slice::slice_index_get;

verus! {

/// Concrete values of the two powers of two at the 128-bit boundary.
proof fn lemma_pow2_128()
    ensures
        pow2(127) == 0x80000000000000000000000000000000,
        pow2(128) == 0x100000000000000000000000000000000,
{
    lemma2_to64();
    lemma2_to64_rest();
    lemma_pow2_adds(64, 63);
    lemma_pow2_adds(64, 64);
}

/// The supported proof-of-work networks, each with its own retarget and
/// timestamp policy.
#[derive(Debug, Clone, Copy, PartialEq, Eq, Structural)]
pub enum Network {
    /// Fixed-interval difficulty adjustment every 2016 blocks.
    Mainnet,
    /// As Mainnet, but a minimum-difficulty header is accepted after a
    /// timeout of twice the block spacing.
    Testnet,
    /// No difficulty adjustment at all.
    Regtest,
}

/// The exponent byte of a compact target.
pub open spec fn bits_exp(bits: u32) -> u32 {
    bits >> 24
}

/// The 23-bit mantissa of a compact target.
pub open spec fn bits_mant(bits: u32) -> u32 {
    bits & 0x007fffff
}

/// Whether the compact value carries the sign bit, which denotes a negative
/// target and is never valid.
pub open spec fn bits_negative(bits: u32) -> bool {
    bits & 0x00800000 != 0
}

/// The target a compact value encodes: mantissa shifted by exponent-minus-3
/// bytes.  A negative compact encodes target zero.
pub open spec fn spec_target(bits: u32) -> nat {
    if bits_negative(bits) {
        0
    } else if bits_exp(bits) == 0 {
        bits_mant(bits) as nat / 16777216
    } else if bits_exp(bits) == 1 {
        bits_mant(bits) as nat / 65536
    } else if bits_exp(bits) == 2 {
        bits_mant(bits) as nat / 256
    } else {
        bits_mant(bits) as nat * pow2((8 * (bits_exp(bits) - 3)) as nat)
    }
}

/// The compact proof-of-work limit of a network.
pub open spec fn spec_pow_limit_bits(net: Network) -> u32 {
    match net {
        Network::Mainnet => 0x1d00ffffu32,
        Network::Testnet => 0x1d00ffffu32,
        Network::Regtest => 0x207fffffu32,
    }
}

/// Executable form of the network's proof-of-work limit.
pub fn pow_limit_bits(net: Network) -> (r: u32)
    ensures
        r == spec_pow_limit_bits(net),
{
    match net {
        Network::Mainnet => 0x1d00ffffu32,
        Network::Testnet => 0x1d00ffffu32,
        Network::Regtest => 0x207fffffu32,
    }
}

/// A compact value is acceptable on a network when its exponent stays within
/// a 256-bit target, the target is positive, and the target does not exceed
/// the network's limit.
pub open spec fn spec_compact_valid(bits: u32, net: Network) -> bool {
    bits_exp(bits) <= 32 && 0 < spec_target(bits) <= spec_target(spec_pow_limit_bits(net))
}

/// The value of a byte sequence read as a big-endian integer.
pub open spec fn be_val(s: Seq<u8>) -> nat
    decreases s.len(),
{
    if s.len() == 0 {
        0
    } else {
        (be_val(s.drop_last()) * 256 + s.last()) as nat
    }
}

/// A big-endian value is bounded by the width of its encoding.
pub proof fn lemma_be_val_bound(s: Seq<u8>)
    ensures
        be_val(s) < pow2(8 * s.len()),
    decreases s.len(),
{
    if s.len() == 0 {
        lemma2_to64();
    } else {
        lemma_be_val_bound(s.drop_last());
        lemma_pow2_adds((8 * (s.len() - 1)) as nat, 8);
        lemma2_to64();
        let p = pow2((8 * (s.len() - 1)) as nat);
        assert(be_val(s.drop_last()) * 256 + s.last() < p * 256) by (nonlinear_arith)
            requires
                be_val(s.drop_last()) < p,
                s.last() < 256,
        ;
    }
}

/// Splitting a byte sequence splits its value.
pub proof fn lemma_be_val_split(s: Seq<u8>, j: int)
    requires
        0 <= j <= s.len(),
    ensures
        be_val(s) == be_val(s.take(j)) * pow2((8 * (s.len() - j)) as nat) + be_val(s.skip(j)),
    decreases s.len() - j,
{
    if j == s.len() {
        assert(s.take(j) =~= s);
        assert(s.skip(j) =~= Seq::<u8>::empty());
        lemma2_to64();
        assert(be_val(s) * pow2(0) + 0 == be_val(s)) by (nonlinear_arith)
            requires
                pow2(0) == 1,
        ;
    } else {
        let d = s.drop_last();
        lemma_be_val_split(d, j);
        assert(d.take(j) =~= s.take(j));
        assert(d.skip(j) =~= s.skip(j).drop_last());
        let t = be_val(s.take(j));
        let p = pow2((8 * (d.len() - j)) as nat);
        lemma_pow2_adds((8 * (d.len() - j)) as nat, 8);
        lemma2_to64();
        // be_val(s) == (t * p + be_val(s.skip(j).drop_last())) * 256 + s.last()
        assert((t * p + be_val(s.skip(j).drop_last())) * 256 + s.last() == t * (p * 256) + (be_val(
            s.skip(j).drop_last(),
        ) * 256 + s.last())) by (nonlinear_arith);
        assert(s.skip(j).last() == s.last());
        assert(be_val(s.skip(j)) == be_val(s.skip(j).drop_last()) * 256 + s.last());
    }
}

/// A big-endian value is zero exactly when every byte is zero.
pub proof fn lemma_be_val_zero(s: Seq<u8>)
    ensures
        be_val(s) == 0 <==> (forall|i: int| 0 <= i < s.len() ==> s[i] == 0),
    decreases s.len(),
{
    if s.len() > 0 {
        lemma_be_val_zero(s.drop_last());
        assert(be_val(s.drop_last()) * 256 >= 0) by (nonlinear_arith);
        if be_val(s) == 0 {
            assert(be_val(s.drop_last()) * 256 == 0);
            assert(be_val(s.drop_last()) == 0) by (nonlinear_arith)
                requires
                    be_val(s.drop_last()) * 256 == 0,
            ;
            assert forall|i: int| 0 <= i < s.len() implies s[i] == 0 by {
                if i < s.len() - 1 {
                    assert(s.drop_last()[i] == 0);
                }
            }
        } else {
            if forall|i: int| 0 <= i < s.len() ==> s[i] == 0 {
                assert forall|i: int| 0 <= i < s.drop_last().len() implies s.drop_last()[i]
                    == 0 by {
                    assert(s[i] == 0);
                }
                assert(be_val(s.drop_last()) == 0);
                assert(s.last() == 0);
            }
        }
    }
}

/// The target in normalized form: a mantissa below 2^24 and a byte shift,
/// with `target == mant * 256^shift`.
pub open spec fn spec_norm_mant(bits: u32) -> u64 {
    if bits_negative(bits) {
        0
    } else if bits_exp(bits) == 0 {
        (bits_mant(bits) / 16777216) as u64
    } else if bits_exp(bits) == 1 {
        (bits_mant(bits) / 65536) as u64
    } else if bits_exp(bits) == 2 {
        (bits_mant(bits) / 256) as u64
    } else {
        bits_mant(bits) as u64
    }
}

/// The byte shift of the normalized target.
pub open spec fn spec_norm_shift(bits: u32) -> u32 {
    if bits_exp(bits) <= 3 {
        0
    } else {
        (bits_exp(bits) - 3) as u32
    }
}

/// Normalization preserves the encoded target.
pub proof fn lemma_norm_target(bits: u32)
    ensures
        spec_norm_mant(bits) as nat * pow2((8 * spec_norm_shift(bits)) as nat) == spec_target(bits),
        spec_norm_mant(bits) < 0x800000,
{
    assert(bits & 0x007fffff < 0x800000) by (bit_vector);
    lemma2_to64();
    let m = spec_norm_mant(bits) as nat;
    if bits_negative(bits) || bits_exp(bits) <= 3 {
        assert(m * pow2(0) == m) by (nonlinear_arith)
            requires
                pow2(0) == 1,
        ;
    }
}

/// Extracts the normalized mantissa and byte shift from a compact value.
fn normalize_bits(bits: u32) -> (r: (u64, u32))
    ensures
        r.0 == spec_norm_mant(bits),
        r.1 == spec_norm_shift(bits),
        r.0 < 0x800000,
{
    proof {
        assert(bits & 0x007fffff < 0x800000) by (bit_vector);
        assert(bits >> 24 < 256) by (bit_vector);
    }
    let exp = bits >> 24;
    let mant = bits & 0x007fffff;
    if bits & 0x00800000 != 0 {
        (0u64, if exp <= 3 { 0u32 } else { exp - 3 })
    } else if exp == 0 {
        ((mant / 16777216) as u64, 0u32)
    } else if exp == 1 {
        ((mant / 65536) as u64, 0u32)
    } else if exp == 2 {
        ((mant / 256) as u64, 0u32)
    } else if exp == 3 {
        (mant as u64, 0u32)
    } else {
        (mant as u64, exp - 3)
    }
}

/// Compares two normalized targets: `am * 256^ash <= bm * 256^bsh`.
fn norm_target_le(am: u64, ash: u32, bm: u64, bsh: u32) -> (r: bool)
    requires
        am < 0x1000000,
        bm < 0x1000000,
    ensures
        r == (am as nat * pow2((8 * ash) as nat) <= bm as nat * pow2((8 * bsh) as nat)),
{
    proof {
        lemma2_to64();
    }
    if am == 0 {
        proof {
            lemma_pow2_pos((8 * bsh) as nat);
            assert(0 * pow2((8 * ash) as nat) == 0) by (nonlinear_arith);
            assert(bm as nat * pow2((8 * bsh) as nat) >= 0) by (nonlinear_arith);
        }
        return true;
    }
    if bm == 0 {
        proof {
            lemma_pow2_pos((8 * ash) as nat);
            assert(am as nat * pow2((8 * ash) as nat) >= 1 * pow2((8 * ash) as nat))
                by (nonlinear_arith)
                requires
                    am >= 1,
                    pow2((8 * ash) as nat) > 0,
            ;
            assert(bm as nat * pow2((8 * bsh) as nat) == 0) by (nonlinear_arith)
                requires
                    bm == 0,
            ;
        }
        return false;
    }
    if ash >= bsh {
        let d = ash - bsh;
        proof {
            lemma_pow2_adds((8 * d) as nat, (8 * bsh) as nat);
        }
        if d >= 3 {
            proof {
                lemma_pow2_pos((8 * bsh) as nat);
                lemma_pow2_pos((8 * d - 24) as nat);
                lemma_pow2_adds(24, (8 * d - 24) as nat);
                assert(am as nat * pow2((8 * d) as nat) > bm as nat) by (nonlinear_arith)
                    requires
                        am >= 1,
                        bm < 0x1000000,
                        pow2((8 * d) as nat) == 0x1000000 * pow2((8 * d - 24) as nat),
                        pow2((8 * d - 24) as nat) >= 1,
                ;
                assert(am as nat * pow2((8 * ash) as nat) > bm as nat * pow2((8 * bsh) as nat))
                    by (nonlinear_arith)
                    requires
                        pow2((8 * ash) as nat) == pow2((8 * d) as nat) * pow2((8 * bsh) as nat),
                        am as nat * pow2((8 * d) as nat) > bm as nat,
                        pow2((8 * bsh) as nat) > 0,
                ;
            }
            false
        } else {
            let scale: u64 = if d == 0 {
                1
            } else if d == 1 {
                256
            } else {
                65536
            };
            proof {
                assert(pow2((8 * d) as nat) == scale);
                assert((am * scale) as nat * pow2((8 * bsh) as nat) == am as nat * pow2(
                    (8 * ash) as nat,
                )) by (nonlinear_arith)
                    requires
                        pow2((8 * ash) as nat) == pow2((8 * d) as nat) * pow2((8 * bsh) as nat),
                        scale == pow2((8 * d) as nat),
                ;
                lemma_pow2_pos((8 * bsh) as nat);
                assert((am * scale <= bm) == ((am * scale) as nat * pow2((8 * bsh) as nat)
                    <= bm as nat * pow2((8 * bsh) as nat))) by (nonlinear_arith)
                    requires
                        pow2((8 * bsh) as nat) > 0,
                ;
            }
            am * scale <= bm
        }
    } else {
        let d = bsh - ash;
        proof {
            lemma_pow2_adds((8 * d) as nat, (8 * ash) as nat);
        }
        if d >= 3 {
            proof {
                lemma_pow2_pos((8 * ash) as nat);
                lemma_pow2_pos((8 * d - 24) as nat);
                lemma_pow2_adds(24, (8 * d - 24) as nat);
                assert((am as nat) < pow2((8 * d) as nat) * (bm as nat)) by (nonlinear_arith)
                    requires
                        bm >= 1,
                        am < 0x1000000,
                        pow2((8 * d) as nat) == 0x1000000 * pow2((8 * d - 24) as nat),
                        pow2((8 * d - 24) as nat) >= 1,
                ;
                assert(am as nat * pow2((8 * ash) as nat) <= bm as nat * pow2((8 * bsh) as nat))
                    by (nonlinear_arith)
                    requires
                        pow2((8 * bsh) as nat) == pow2((8 * d) as nat) * pow2((8 * ash) as nat),
                        (am as nat) < pow2((8 * d) as nat) * (bm as nat),
                        pow2((8 * ash) as nat) > 0,
                ;
            }
            true
        } else {
            let scale: u64 = if d == 0 {
                1
            } else if d == 1 {
                256
            } else {
                65536
            };
            proof {
                assert(pow2((8 * d) as nat) == scale);
                assert((bm * scale) as nat * pow2((8 * ash) as nat) == bm as nat * pow2(
                    (8 * bsh) as nat,
                )) by (nonlinear_arith)
                    requires
                        pow2((8 * bsh) as nat) == pow2((8 * d) as nat) * pow2((8 * ash) as nat),
                        scale == pow2((8 * d) as nat),
                ;
                lemma_pow2_pos((8 * ash) as nat);
                assert((am <= bm * scale) == (am as nat * pow2((8 * ash) as nat) <= (bm
                    * scale) as nat * pow2((8 * ash) as nat))) by (nonlinear_arith)
                    requires
                        pow2((8 * ash) as nat) > 0,
                ;
            }
            am <= bm * scale
        }
    }
}

/// Whether a compact value is acceptable on the network.
pub fn compact_valid(bits: u32, net: Network) -> (r: bool)
    ensures
        r == spec_compact_valid(bits, net),
{
    proof {
        assert(bits >> 24 < 256) by (bit_vector);
        lemma_norm_target(bits);
        lemma_norm_target(spec_pow_limit_bits(net));
    }
    let exp = bits >> 24;
    if exp > 32 {
        return false;
    }
    let (tm, te) = normalize_bits(bits);
    if tm == 0 {
        proof {
            assert(0 * pow2((8 * spec_norm_shift(bits)) as nat) == 0) by (nonlinear_arith);
        }
        return false;
    }
    proof {
        lemma_pow2_pos((8 * spec_norm_shift(bits)) as nat);
        assert(tm as nat * pow2((8 * te) as nat) >= 1 * pow2((8 * te) as nat)) by (nonlinear_arith)
            requires
                tm >= 1,
                pow2((8 * te) as nat) > 0,
        ;
    }
    let (lm, le) = normalize_bits(pow_limit_bits(net));
    norm_target_le(tm, te, lm, le)
}

/// The byte-reversal of a sequence: a hash's display order.
pub open spec fn spec_rev_bytes(s: Seq<u8>) -> Seq<u8> {
    Seq::new(s.len(), |i: int| s[s.len() - 1 - i])
}

/// A header hash meets the difficulty encoded in `bits` when the compact
/// value is acceptable and the hash — read byte-reversed, in display order,
/// as a big-endian integer — is at most the target.
pub open spec fn spec_pow_ok(hash: Seq<u8>, bits: u32, net: Network) -> bool {
    spec_compact_valid(bits, net) && be_val(spec_rev_bytes(hash)) <= spec_target(bits)
}

/// Reverses a byte string into display order.
fn rev_bytes(v: &[u8]) -> (r: Vec<u8>)
    ensures
        r@ == spec_rev_bytes(v@),
{
    let n = v.len();
    let mut out: Vec<u8> = Vec::new();
    let mut i: usize = 0;
    while i < n
        invariant
            i <= n,
            n == v@.len(),
            out@.len() == i,
            forall|j: int| 0 <= j < i ==> out@[j] == v@[n - 1 - j],
        decreases n - i,
    {
        out.push(*slice_index_get(v, n - 1 - i));
        i = i + 1;
    }
    proof {
        assert(out@ =~= spec_rev_bytes(v@));
    }
    out
}

/// Whether every byte of `s` in `[from, to)` is zero.
fn all_zero(s: &[u8], from: usize, to: usize) -> (r: bool)
    requires
        from <= to <= s@.len(),
    ensures
        r == (forall|i: int| from <= i < to ==> s@[i] == 0),
{
    let mut i = from;
    while i < to
        invariant
            from <= i <= to <= s@.len(),
            forall|j: int| from <= j < i ==> s@[j] == 0,
        decreases to - i,
    {
        if *slice_index_get(s, i) != 0 {
            return false;
        }
        i = i + 1;
    }
    true
}

/// The value of three consecutive bytes, big-endian.
proof fn lemma_be_val3(u: Seq<u8>)
    requires
        u.len() == 3,
    ensures
        be_val(u) == u[0] * 65536 + u[1] * 256 + u[2],
{
    reveal_with_fuel(be_val, 5);
    let d1 = u.drop_last();
    let d2 = d1.drop_last();
    assert(d2.drop_last() =~= Seq::<u8>::empty());
    assert(be_val(d2.drop_last()) == 0);
    assert(be_val(d2) == (be_val(d2.drop_last()) * 256 + d2.last()) as nat);
    assert(d2.last() == u[0] && d1.last() == u[1] && u.last() == u[2]);
    assert(be_val(d1) == (be_val(d2) * 256 + d1.last()) as nat);
    assert(be_val(u) == (be_val(d1) * 256 + u[2]) as nat);
}

/// Compares a header hash against the target a compact value encodes.
pub fn meets_target(hash: &[u8], bits: u32, net: Network) -> (r: bool)
    requires
        hash@.len() == 32,
    ensures
        r == spec_pow_ok(hash@, bits, net),
{
    if !compact_valid(bits, net) {
        return false;
    }
    let disp = rev_bytes(hash);
    let (tm, te) = normalize_bits(bits);
    proof {
        lemma_norm_target(bits);
        if tm == 0 {
            assert(0 * pow2((8 * te) as nat) == 0) by (nonlinear_arith);
        }
    }
    let j: usize = 32 - (te as usize);
    let hz = all_zero(disp.as_slice(), 0, j - 3);
    let mid: u64 = (*slice_index_get(disp.as_slice(), j - 3) as u64) * 65536 + (*slice_index_get(
        disp.as_slice(),
        j - 2,
    ) as u64) * 256 + (*slice_index_get(disp.as_slice(), j - 1) as u64);
    let tz = all_zero(disp.as_slice(), j, 32);
    let r = hz && (mid < tm || (mid == tm && tz));
    proof {
        let s = disp@;
        let jj = j as int;
        let p = pow2((8 * te) as nat);
        lemma_pow2_pos((8 * te) as nat);
        let head = s.take(jj);
        let tail = s.skip(jj);
        let hh = be_val(head.take(jj - 3));
        lemma_be_val_split(s, jj);
        lemma_be_val_split(head, jj - 3);
        lemma_be_val_bound(tail);
        lemma_be_val_zero(head.take(jj - 3));
        lemma_be_val_zero(tail);
        lemma2_to64();
        let m3 = head.skip(jj - 3);
        assert(m3 =~= s.subrange(jj - 3, jj));
        lemma_be_val3(m3);
        assert(be_val(head) == hh * 0x1000000 + be_val(m3));
        // head zero-prefix check matches the mathematical split
        assert forall|i: int| #![trigger head.take(jj - 3)[i]] 0 <= i < jj - 3 implies head.take(
            jj - 3,
        )[i] == s[i] by {}
        if hz {
            assert(forall|i: int| 0 <= i < jj - 3 ==> #[trigger] head.take(jj - 3)[i] == 0);
        }
        if hh == 0 {
            assert forall|i: int| 0 <= i < jj - 3 implies s[i] == 0 by {
                assert(head.take(jj - 3)[i] == 0);
            }
        }
        assert(hz == (hh == 0));
        assert forall|k: int| #![trigger tail[k]] 0 <= k < tail.len() implies tail[k] == s[jj
            + k] by {}
        if tz {
            assert(forall|k: int| 0 <= k < tail.len() ==> #[trigger] tail[k] == 0);
        }
        if be_val(tail) == 0 {
            assert forall|i: int| jj <= i < 32 implies s[i] == 0 by {
                assert(tail[i - jj] == 0);
            }
        }
        assert(tz == (be_val(tail) == 0));
        assert(mid == be_val(m3));
        let hv = be_val(head);
        let t = spec_target(bits);
        assert(t == tm as nat * p);
        // the head value decides the comparison except on equality
        if hh != 0 {
            assert(hv >= 0x1000000) by (nonlinear_arith)
                requires
                    hv == hh * 0x1000000 + be_val(m3),
                    hh >= 1,
            ;
            assert(be_val(s) > t) by (nonlinear_arith)
                requires
                    be_val(s) == hv * p + be_val(tail),
                    hv >= 0x1000000,
                    tm < 0x1000000,
                    t == tm as nat * p,
                    p > 0,
            ;
        } else {
            assert(hv == be_val(m3));
            if hv < tm as nat {
                assert(be_val(s) <= t) by (nonlinear_arith)
                    requires
                        be_val(s) == hv * p + be_val(tail),
                        be_val(tail) < p,
                        hv < tm as nat,
                        t == tm as nat * p,
                ;
            } else if hv == tm as nat {
                assert(be_val(s) == t + be_val(tail)) by (nonlinear_arith)
                    requires
                        be_val(s) == hv * p + be_val(tail),
                        hv == tm as nat,
                        t == tm as nat * p,
                ;
            } else {
                assert(be_val(s) > t) by (nonlinear_arith)
                    requires
                        be_val(s) == hv * p + be_val(tail),
                        hv > tm as nat,
                        t == tm as nat * p,
                        p > 0,
                ;
            }
        }
    }
    r
}

/// The largest representable work value; sums saturate here.
pub open spec fn spec_work_max() -> nat {
    0xffffffffffffffffffffffffffffffff
}

/// The work a target stands for: the quotient `2^256 / target`, capped at the
/// largest representable value.
pub open spec fn spec_work_of_target(t: nat) -> nat {
    if t == 0 {
        0
    } else if pow2(256) / t > spec_work_max() {
        spec_work_max()
    } else {
        pow2(256) / t
    }
}

/// The work a header's difficulty bits stand for on the network.
pub open spec fn spec_header_work(bits: u32, net: Network) -> nat {
    if spec_compact_valid(bits, net) {
        spec_work_of_target(spec_target(bits))
    } else {
        0
    }
}

/// `2^k` as a 128-bit value.
fn pow2_u128(k: u32) -> (r: u128)
    requires
        k <= 127,
    ensures
        r as nat == pow2(k as nat),
{
    proof {
        lemma2_to64();
    }
    let mut p: u128 = 1;
    let mut i: u32 = 0;
    while i < k
        invariant
            i <= k <= 127,
            p as nat == pow2(i as nat),
        decreases k - i,
    {
        proof {
            lemma_pow2_unfold((i + 1) as nat);
            lemma_pow2_128();
            if i + 1 < 127 {
                lemma_pow2_strictly_increases((i + 1) as nat, 127);
            }
        }
        p = p * 2;
        i = i + 1;
    }
    p
}

/// Computes the work of a valid compact value.
pub fn header_work(bits: u32, net: Network) -> (w: u128)
    requires
        spec_compact_valid(bits, net),
    ensures
        w as nat == spec_header_work(bits, net),
        w >= 1,
{
    let (tm, te) = normalize_bits(bits);
    proof {
        lemma_norm_target(bits);
        if tm == 0 {
            assert(0 * pow2((8 * te) as nat) == 0) by (nonlinear_arith);
        }
    }
    let s: u32 = 256 - 8 * te;
    let t = Ghost(spec_target(bits));
    proof {
        // 2^256 / target == 2^s / tm
        lemma_pow2_pos((8 * te) as nat);
        lemma_pow2_pos(s as nat);
        lemma_pow2_adds(s as nat, (8 * te) as nat);
        lemma_div_denominator(pow2(256) as int, pow2((8 * te) as nat) as int, tm as int);
        lemma_pow2_subtracts((8 * te) as nat, 256);
        assert(pow2((8 * te) as nat) * tm as nat == t@) by (nonlinear_arith)
            requires
                t@ == tm as nat * pow2((8 * te) as nat),
        ;
        assert(pow2(256) / (pow2((8 * te) as nat) * (tm as nat)) == pow2(s as nat) / (tm as nat));
        assert(pow2(256) / t@ == pow2(s as nat) / (tm as nat));
    }
    let w = pow2_div_mant(s, tm);
    proof {
        lemma_pow2_pos(s as nat);
        lemma2_to64();
        assert(pow2(s as nat) / (tm as nat) >= 1) by {
            if s > 24 {
                lemma_pow2_strictly_increases(24, s as nat);
            }
            lemma_div_is_ordered(tm as int, pow2(s as nat) as int, tm as int);
            lemma_div_by_self(tm as int);
        }
    }
    w
}

/// Computes `2^s / m`, capped at the largest 128-bit value.
fn pow2_div_mant(s: u32, m: u64) -> (q: u128)
    requires
        24 <= s <= 256,
        1 <= m < 0x1000000,
    ensures
        q as nat == spec_work_of_target_quot(s as nat, m as nat),
{
    proof {
        lemma2_to64();
        lemma_pow2_128();
    }
    if s <= 127 {
        let p = pow2_u128(s);
        proof {
            lemma_pow2_strictly_increases(s as nat, 128);
            lemma_div_is_ordered(pow2(s as nat) as int, pow2(128) as int, m as int);
            lemma_div_nonincreasing(pow2(128) as int, m as int);
        }
        p / (m as u128)
    } else if s >= 152 {
        proof {
            // m < 2^24 <= 2^(s-128), so the quotient overflows 128 bits
            lemma_pow2_adds(128, (s - 128) as nat);
            if s > 152 {
                lemma_pow2_strictly_increases(24, (s - 128) as nat);
            }
            assert(pow2(128) * m as nat <= pow2(s as nat)) by (nonlinear_arith)
                requires
                    (m as nat) < pow2((s - 128) as nat),
                    pow2(s as nat) == pow2(128) * pow2((s - 128) as nat),
            ;
            lemma_div_is_ordered(pow2(128) as int * m as int, pow2(s as nat) as int, m as int);
            lemma_div_by_multiple(pow2(128) as int, m as int);
        }
        u128::MAX
    } else {
        let thr = pow2_u128(s - 128);
        if (m as u128) <= thr {
            proof {
                lemma_pow2_adds(128, (s - 128) as nat);
                assert(pow2(128) * m as nat <= pow2(s as nat)) by (nonlinear_arith)
                    requires
                        m as nat <= pow2((s - 128) as nat),
                        pow2(s as nat) == pow2(128) * pow2((s - 128) as nat),
                ;
                lemma_div_is_ordered(pow2(128) as int * m as int, pow2(s as nat) as int, m as int);
                lemma_div_by_multiple(pow2(128) as int, m as int);
            }
            u128::MAX
        } else {
            let p127 = pow2_u128(127);
            let q1 = p127 / (m as u128);
            let r1 = p127 % (m as u128);
            let k = s - 127;
            let pk = pow2_u128(k);
            proof {
                lemma_pow2_adds(127, k as nat);
                lemma_fundamental_div_mod(pow2(127) as int, m as int);
                if k < 24 {
                    lemma_pow2_strictly_increases(k as nat, 24);
                }
                lemma_mod_division_less_than_divisor(pow2(127) as int, m as int);
                assert(pow2(127) as int == (m as int) * (q1 as int) + (r1 as int));
                // 2^s == (q1 * 2^k) * m + r1 * 2^k
                assert(pow2(s as nat) == (q1 as nat * pk as nat) * m as nat + r1 as nat
                    * pk as nat) by (nonlinear_arith)
                    requires
                        pow2(s as nat) == pow2(127) * pow2(k as nat),
                        pow2(127) as int == (m as int) * (q1 as int) + (r1 as int),
                        pk as nat == pow2(k as nat),
                ;
                assert((r1 as nat) * (pk as nat) < 0x1000000000000) by (nonlinear_arith)
                    requires
                        (r1 as nat) < 0x1000000,
                        (pk as nat) <= 0x1000000,
                ;
            }
            let num2: u128 = r1 * pk;
            let q2 = num2 / (m as u128);
            let r2 = num2 % (m as u128);
            proof {
                lemma_fundamental_div_mod(num2 as int, m as int);
                lemma_mod_division_less_than_divisor(num2 as int, m as int);
                assert(num2 as int == (m as int) * (q2 as int) + (r2 as int));
                assert(pow2(s as nat) == (q1 as nat * pk as nat + q2 as nat) * m as nat
                    + r2 as nat) by (nonlinear_arith)
                    requires
                        pow2(s as nat) == (q1 as nat * pk as nat) * m as nat + num2 as nat,
                        num2 as int == (m as int) * (q2 as int) + (r2 as int),
                ;
                lemma_fundamental_div_mod_converse(
                    pow2(s as nat) as int,
                    m as int,
                    (q1 as nat * pk as nat + q2 as nat) as int,
                    r2 as int,
                );
                // the quotient fits: m > 2^(s-128) means 2^s < m * 2^128
                lemma_pow2_adds(128, (s - 128) as nat);
                assert(pow2(s as nat) < (m as nat) * pow2(128)) by (nonlinear_arith)
                    requires
                        pow2((s - 128) as nat) < m as nat,
                        pow2(s as nat) == pow2(128) * pow2((s - 128) as nat),
                        pow2(128) > 0,
                ;
                lemma_multiply_divide_lt(pow2(s as nat) as int, m as int, pow2(128) as int);
                assert((q1 as nat * pk as nat + q2 as nat) < pow2(128));
            }
            q1 * pk + q2
        }
    }
}

/// The capped quotient `2^s / m`.
pub open spec fn spec_work_of_target_quot(s: nat, m: nat) -> nat {
    if m == 0 {
        0
    } else if pow2(s) / m > spec_work_max() {
        spec_work_max()
    } else {
        pow2(s) / m
    }
}

/// Blocks between two difficulty adjustments on adjusting networks.
pub const RETARGET_INTERVAL: u64 = 2016;

/// The intended duration of one retarget interval, in seconds.
pub const TARGET_TIMESPAN: u64 = 1209600;

/// The intended spacing between blocks, in seconds.
pub const TARGET_SPACING: u64 = 600;

/// The observed interval duration, clamped to a quarter and four times the
/// intended timespan; an interval that ran backwards counts as the minimum.
pub open spec fn spec_clamped_timespan(first_time: u32, last_time: u32) -> u64 {
    if last_time <= first_time {
        302400u64
    } else if last_time - first_time < 302400 {
        302400u64
    } else if last_time - first_time > 4838400 {
        4838400u64
    } else {
        (last_time - first_time) as u64
    }
}

/// Re-encodes a normalized target as a compact value, truncating the
/// mantissa to its top bytes as the compact form requires.
pub open spec fn spec_compact_encode(m: u64, e: u32) -> u32 {
    if m >= 0x800000 {
        ((e + 4) * 0x1000000 + m / 256) as u32
    } else {
        ((e + 3) * 0x1000000 + m) as u32
    }
}

/// The difficulty bits owed at a retarget boundary: the previous target
/// scaled by the clamped observed timespan over the intended timespan, capped
/// at the network's proof-of-work limit.
pub open spec fn spec_retarget_bits(
    net: Network,
    last_bits: u32,
    first_time: u32,
    last_time: u32,
) -> u32 {
    let m = spec_norm_mant(last_bits);
    let e = spec_norm_shift(last_bits);
    let ts = spec_clamped_timespan(first_time, last_time);
    let m2 = ((m * ts) / 1209600) as u64;
    let m3: u64 = if m2 == 0 {
        1u64
    } else {
        m2
    };
    let m4: u64 = if m3 >= 0x1000000 {
        m3 / 256
    } else {
        m3
    };
    let e4: u32 = if m3 >= 0x1000000 {
        (e + 1) as u32
    } else {
        e
    };
    if (m4 as nat) * pow2((8 * e4) as nat) > spec_target(spec_pow_limit_bits(net)) {
        spec_pow_limit_bits(net)
    } else {
        spec_compact_encode(m4, e4)
    }
}

/// Computes the difficulty bits owed at a retarget boundary.
pub fn retarget_bits(net: Network, last_bits: u32, first_time: u32, last_time: u32) -> (r: u32)
    requires
        bits_exp(last_bits) <= 32,
    ensures
        r == spec_retarget_bits(net, last_bits, first_time, last_time),
{
    let (m, e) = normalize_bits(last_bits);
    let ts: u64 = if last_time <= first_time {
        302400
    } else if last_time - first_time < 302400 {
        302400
    } else if (last_time - first_time) as u64 > 4838400 {
        4838400
    } else {
        (last_time - first_time) as u64
    };
    proof {
        assert((m as nat) * (ts as nat) < 0x10000000000000) by (nonlinear_arith)
            requires
                m < 0x1000000,
                ts <= 4838400,
        ;
    }
    let m2: u64 = (m * ts) / 1209600;
    let m3: u64 = if m2 == 0 {
        1
    } else {
        m2
    };
    let (m4, e4): (u64, u32) = if m3 >= 0x1000000 {
        (m3 / 256, e + 1)
    } else {
        (m3, e)
    };
    proof {
        assert(m3 < 0x100000000) by (nonlinear_arith)
            requires
                m3 == 1 || m3 == (m as nat * ts as nat) / 1209600,
                m < 0x1000000,
                ts <= 4838400,
        ;
    }
    let (lm, le) = normalize_bits(pow_limit_bits(net));
    proof {
        lemma_norm_target(spec_pow_limit_bits(net));
    }
    if !norm_target_le(m4, e4, lm, le) {
        pow_limit_bits(net)
    } else {
        if m4 >= 0x800000 {
            (e4 + 4) * 0x1000000 + (m4 / 256) as u32
        } else {
            (e4 + 3) * 0x1000000 + (m4 as u32)
        }
    }
}

/// The difficulty bits the policy owes the next header.
///
/// On adjusting networks a header at a retarget boundary must carry the
/// recomputed bits; elsewhere it must repeat the previous bits.  The test
/// network additionally accepts a minimum-difficulty header once the gap to
/// the previous header exceeds twice the intended spacing.  The
/// non-adjusting network always repeats the previous bits.
pub open spec fn spec_expected_bits(
    net: Network,
    height: u64,
    prev_bits: u32,
    prev_time: u32,
    interval_first_time: u32,
    header_time: u32,
) -> u32 {
    match net {
        Network::Regtest => prev_bits,
        Network::Mainnet => if height % 2016 == 0 {
            spec_retarget_bits(net, prev_bits, interval_first_time, prev_time)
        } else {
            prev_bits
        },
        Network::Testnet => if height % 2016 == 0 {
            spec_retarget_bits(net, prev_bits, interval_first_time, prev_time)
        } else if header_time as u64 > prev_time as u64 + 1200 {
            spec_pow_limit_bits(net)
        } else {
            prev_bits
        },
    }
}

/// Computes the difficulty bits the policy owes the next header.
pub fn expected_bits(
    net: Network,
    height: u64,
    prev_bits: u32,
    prev_time: u32,
    interval_first_time: u32,
    header_time: u32,
) -> (r: u32)
    requires
        bits_exp(prev_bits) <= 32,
    ensures
        r == spec_expected_bits(net, height, prev_bits, prev_time, interval_first_time, header_time),
{
    match net {
        Network::Regtest => prev_bits,
        Network::Mainnet => if height % 2016 == 0 {
            retarget_bits(net, prev_bits, interval_first_time, prev_time)
        } else {
            prev_bits
        },
        Network::Testnet => if height % 2016 == 0 {
            retarget_bits(net, prev_bits, interval_first_time, prev_time)
        } else if header_time as u64 > prev_time as u64 + 1200 {
            pow_limit_bits(net)
        } else {
            prev_bits
        },
    }
}

/// Saturating work addition.
pub open spec fn spec_work_add(a: nat, b: nat) -> nat {
    if a + b > spec_work_max() {
        spec_work_max()
    } else {
        a + b
    }
}

/// Adds two work values, saturating at the largest representable value.
pub fn work_add(a: u128, b: u128) -> (r: u128)
    ensures
        r as nat == spec_work_add(a as nat, b as nat),
        r >= a,
        r >= b,
{
    if a > u128::MAX - b {
        u128::MAX
    } else {
        a + b
    }
}

} // verus!
