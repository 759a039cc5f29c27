//! The durable key codec for instances.
//!
//! An instance is persisted under the key `/instance/<replica-id:16hex>/<idx:16hex>`,
//! both fields in lowercase hexadecimal, 16 digits each, the replica id
//! taken as its 64-bit two's-complement pattern. Encoding demands a
//! non-negative index; decoding accepts exactly this layout and inverts
//! the encoding.

use vstd::arithmetic::div_mod::lemma_div_denominator;
use vstd::arithmetic::div_mod::lemma_fundamental_div_mod;
use vstd::arithmetic::power::lemma_pow_increases;
use vstd::arithmetic::power::lemma_pow_positive;
use vstd::arithmetic::power::pow;
use vstd::prelude::*;
use vstd::string::StringSliceAdditionalSpecFns;

use crate::ids::InstanceId;

verus! {

/// Sixteen to the given power.
pub open spec fn pow16(k: nat) -> int {
    pow(16, k)
}

/// The lowercase hexadecimal digit for a nibble.
pub open spec fn hex_digit(n: int) -> u8 {
    if n < 10 {
        (48 + n) as u8
    } else {
        (87 + n) as u8
    }
}

/// Whether a byte is a lowercase hexadecimal digit.
pub open spec fn is_hex_digit(d: u8) -> bool {
    (48 <= d && d <= 57) || (97 <= d && d <= 102)
}

/// The value of a hexadecimal digit byte.
pub open spec fn hex_val(d: u8) -> int {
    if d <= 57 {
        d - 48
    } else {
        d - 87
    }
}

/// Whether every byte of the sequence is a hexadecimal digit.
pub open spec fn all_hex(s: Seq<u8>) -> bool {
    forall|i: int| 0 <= i < s.len() ==> is_hex_digit(#[trigger] s[i])
}

/// The `p`-th nibble (from the least significant) of a non-negative value.
pub open spec fn nibble(v: int, p: nat) -> int {
    (v / pow16(p)) % 16
}

/// The sixteen hexadecimal digits of a value below `16^16`, most
/// significant first.
pub open spec fn key_hex(v: int) -> Seq<u8> {
    Seq::new(16, |i: int| hex_digit(nibble(v, (15 - i) as nat)))
}

/// The numeric value of a sequence of hexadecimal digit bytes.
pub open spec fn hex_seq_val(s: Seq<u8>) -> int
    decreases s.len(),
{
    if s.len() == 0 {
        0
    } else {
        hex_seq_val(s.drop_last()) * 16 + hex_val(s.last())
    }
}

/// The bytes of `"/instance/"`.
pub open spec fn key_prefix() -> Seq<u8> {
    seq![47u8, 105u8, 110u8, 115u8, 116u8, 97u8, 110u8, 99u8, 101u8, 47u8]
}

/// A signed 64-bit value read as its unsigned two's-complement pattern.
pub open spec fn to_unsigned(x: i64) -> int {
    if x >= 0 {
        x as int
    } else {
        x as int + 0x1_0000_0000_0000_0000
    }
}

/// An unsigned 64-bit pattern read back as a signed value.
pub open spec fn to_signed(v: int) -> int {
    if v < 0x8000_0000_0000_0000 {
        v
    } else {
        v - 0x1_0000_0000_0000_0000
    }
}

/// The durable key of an instance id.
pub open spec fn key_bytes(iid: InstanceId) -> Seq<u8> {
    key_prefix() + key_hex(to_unsigned(iid.replica_id)) + seq![47u8] + key_hex(
        to_unsigned(iid.idx),
    )
}

/// The instance id a key decodes to: exactly the canonical layout is
/// accepted.
pub open spec fn parse_key(s: Seq<u8>) -> Option<InstanceId> {
    if s.len() == 43 && s.subrange(0, 10) == key_prefix() && s[26] == 47 && all_hex(
        s.subrange(10, 26),
    ) && all_hex(s.subrange(27, 43)) {
        Some(
            InstanceId {
                replica_id: to_signed(hex_seq_val(s.subrange(10, 26))) as i64,
                idx: to_signed(hex_seq_val(s.subrange(27, 43))) as i64,
            },
        )
    } else {
        None
    }
}

/// Stepping a power of sixteen: `16^(e+1) == 16 * 16^e`.
proof fn lemma_pow16_step(e: nat)
    ensures
        pow16(e + 1) == 16 * pow16(e),
        pow16(e) > 0,
{
    vstd::arithmetic::power::lemma_pow_adds(16, e, 1);
    vstd::arithmetic::power::lemma_pow1(16);
    lemma_pow_positive(16, e);
}

/// Sixteen to the zeroth power is one.
proof fn lemma_pow16_zero()
    ensures
        pow16(0) == 1,
{
    vstd::arithmetic::power::lemma_pow0(16);
}

/// Digit encoding and digit value are mutually inverse on nibbles.
proof fn lemma_hex_digit_val(n: int)
    requires
        0 <= n < 16,
    ensures
        is_hex_digit(hex_digit(n)),
        hex_val(hex_digit(n)) == n,
{
}

/// A value below `16^16` is recovered from its sixteen hexadecimal
/// digits.
proof fn lemma_key_hex_prefix_val(v: int, k: int)
    requires
        0 <= v < pow16(16),
        0 <= k <= 16,
    ensures
        hex_seq_val(key_hex(v).take(k)) == v / pow16((16 - k) as nat),
    decreases k,
{
    lemma_pow_positive(16, 16);
    if k == 0 {
        assert(key_hex(v).take(0) =~= Seq::<u8>::empty());
        assert(v / pow16(16) == 0) by {
            vstd::arithmetic::div_mod::lemma_basic_div(v, pow16(16));
        }
    } else {
        lemma_key_hex_prefix_val(v, k - 1);
        let s = key_hex(v).take(k);
        assert(s.drop_last() =~= key_hex(v).take(k - 1));
        assert(s.last() == key_hex(v)[k - 1]);
        let p: nat = (16 - k) as nat;
        lemma_pow_positive(16, p);
        let w = v / pow16(p);
        // the digit at position k-1 encodes nibble p of v
        assert(s.last() == hex_digit(nibble(v, p)));
        assert(0 <= nibble(v, p) < 16) by {
            lemma_pow_positive(16, p);
        }
        lemma_hex_digit_val(nibble(v, p));
        // v / 16^(p+1) == (v / 16^p) / 16
        assert(pow16((p + 1) as nat) == 16 * pow16(p)) by {
            lemma_pow16_step(p);
        }
        lemma_div_denominator(v, pow16(p), 16);
        assert(v / (pow16(p) * 16) == w / 16);
        assert(pow16(p) * 16 == 16 * pow16(p)) by {
            vstd::arithmetic::mul::lemma_mul_is_commutative(pow16(p), 16);
        }
        assert(hex_seq_val(s) == (w / 16) * 16 + w % 16);
        lemma_fundamental_div_mod(w, 16);
    }
}

/// A value below `16^16` is recovered from its sixteen hexadecimal
/// digits, and they are all digits.
pub proof fn lemma_key_hex_val(v: int)
    requires
        0 <= v < pow16(16),
    ensures
        hex_seq_val(key_hex(v)) == v,
        all_hex(key_hex(v)),
        key_hex(v).len() == 16,
{
    lemma_key_hex_prefix_val(v, 16);
    assert(key_hex(v).take(16) =~= key_hex(v));
    lemma_pow16_zero();
    assert(v / 1 == v) by {
        vstd::arithmetic::div_mod::lemma_div_basics(v);
    }
    assert forall|i: int| 0 <= i < 16 implies is_hex_digit(#[trigger] key_hex(v)[i]) by {
        lemma_pow_positive(16, (15 - i) as nat);
        lemma_hex_digit_val(nibble(v, (15 - i) as nat));
    }
}

/// The value of a sequence of hexadecimal digits is bounded by the
/// sequence's length in digits.
proof fn lemma_hex_seq_val_bound(s: Seq<u8>)
    requires
        all_hex(s),
    ensures
        0 <= hex_seq_val(s) < pow16(s.len()),
    decreases s.len(),
{
    if s.len() == 0 {
        lemma_pow16_zero();
    } else {
        assert(all_hex(s.drop_last())) by {
            assert(forall|i: int|
                0 <= i < s.drop_last().len() ==> #[trigger] s.drop_last()[i] == s[i]);
        }
        lemma_hex_seq_val_bound(s.drop_last());
        assert(is_hex_digit(s.last()));
        assert(0 <= hex_val(s.last()) < 16);
        assert(pow16(s.len()) == 16 * pow16(s.drop_last().len())) by {
            lemma_pow16_step(s.drop_last().len());
        }
    }
}

/// Round trip: decoding the key of any instance id with a non-negative
/// index gives back that instance id.
pub proof fn lemma_key_round_trip(iid: InstanceId)
    requires
        iid.idx >= 0,
    ensures
        parse_key(key_bytes(iid)) == Some(iid),
{
    let ur = to_unsigned(iid.replica_id);
    let ui = to_unsigned(iid.idx);
    assert(0 <= ur < pow16(16) && 0 <= ui < pow16(16)) by {
        lemma_pow16_vals();
    }
    lemma_key_hex_val(ur);
    lemma_key_hex_val(ui);
    let s = key_bytes(iid);
    assert(s.len() == 43);
    assert(s.subrange(0, 10) =~= key_prefix());
    assert(s[26] == 47);
    assert(s.subrange(10, 26) =~= key_hex(ur));
    assert(s.subrange(27, 43) =~= key_hex(ui));
    assert(to_signed(ur) == iid.replica_id as int);
    assert(to_signed(ui) == iid.idx as int);
}

/// The two powers of sixteen the codec works with, as literals.
proof fn lemma_pow16_vals()
    ensures
        pow16(15) == 0x1000_0000_0000_0000,
        pow16(16) == 0x1_0000_0000_0000_0000,
{
    reveal_with_fuel(pow, 17);
}

/// The unsigned 64-bit pattern of a signed 64-bit value.
fn unsigned_of(x: i64) -> (r: u64)
    ensures
        r as int == to_unsigned(x),
{
    if x >= 0 {
        x as u64
    } else {
        let m = -(x + 1);
        u64::MAX - (m as u64)
    }
}

/// The signed 64-bit value of an unsigned 64-bit pattern.
fn signed_of(v: u64) -> (r: i64)
    ensures
        r as int == to_signed(v as int),
{
    if v < 0x8000_0000_0000_0000 {
        v as i64
    } else {
        let m = u64::MAX - v;
        -(m as i64) - 1
    }
}

/// Appends the sixteen hexadecimal digits of `v`, most significant
/// first.
fn push_hex(out: &mut Vec<u8>, v: u64)
    ensures
        final(out)@ =~= old(out)@ + key_hex(v as int),
{
    proof {
        lemma_pow16_vals();
    }
    let mut p: u64 = 0x1000_0000_0000_0000;
    let mut i: usize = 0;
    while i < 16
        invariant
            0 <= i <= 16,
            i < 16 ==> p as int == pow16((15 - i) as nat),
            out@ =~= old(out)@ + key_hex(v as int).take(i as int),
        decreases 16 - i,
    {
        proof {
            lemma_pow_positive(16, (15 - i) as nat);
        }
        let d = ((v / p) % 16) as u8;
        let b = if d < 10 {
            48 + d
        } else {
            87 + d
        };
        proof {
            assert(b == hex_digit(nibble(v as int, (15 - i) as nat)));
            assert(key_hex(v as int)[i as int] == b);
            assert(key_hex(v as int).take(i as int + 1) =~= key_hex(v as int).take(
                i as int,
            ).push(b));
        }
        out.push(b);
        if i < 15 {
            proof {
                assert(pow16((15 - i) as nat) == 16 * pow16((14 - i) as nat)) by {
                    lemma_pow16_step((14 - i) as nat);
                }
            }
            p = p / 16;
        }
        i += 1;
    }
    proof {
        assert(key_hex(v as int).take(16) =~= key_hex(v as int));
    }
}

/// Parses sixteen hexadecimal digit bytes of `s` starting at `from`.
fn parse_hex_field(s: &[u8], from: usize) -> (r: Option<u64>)
    requires
        from + 16 <= s@.len(),
    ensures
        r.is_some() == all_hex(s@.subrange(from as int, from as int + 16)),
        match r {
            Some(v) => v as int == hex_seq_val(s@.subrange(from as int, from as int + 16)),
            None => true,
        },
{
    let ghost field = s@.subrange(from as int, from as int + 16);
    let n = s.len();
    let mut val: u64 = 0;
    let mut k: usize = 0;
    proof {
        lemma_pow16_zero();
    }
    while k < 16
        invariant
            n == s@.len(),
            from + 16 <= s@.len(),
            field == s@.subrange(from as int, from as int + 16),
            0 <= k <= 16,
            all_hex(field.take(k as int)),
            val as int == hex_seq_val(field.take(k as int)),
            val < pow16(k as nat),
        decreases 16 - k,
    {
        let b = s[from + k];
        proof {
            assert(field[k as int] == s@[from as int + k]);
        }
        let d: u8;
        if 48 <= b && b <= 57 {
            d = b - 48;
        } else if 97 <= b && b <= 102 {
            d = b - 87;
        } else {
            proof {
                assert(!is_hex_digit(field[k as int]));
                assert(field =~= field.subrange(0, 16));
            }
            return None;
        }
        proof {
            assert(is_hex_digit(field[k as int]));
            assert(d as int == hex_val(field[k as int]));
            assert(field.take(k as int + 1).drop_last() =~= field.take(k as int));
            assert(field.take(k as int + 1).last() == field[k as int]);
            lemma_pow_increases(16, k as nat, 15);
            lemma_pow16_vals();
            assert(pow16((k + 1) as nat) == 16 * pow16(k as nat)) by {
                lemma_pow16_step(k as nat);
            }
        }
        val = val * 16 + (d as u64);
        k += 1;
    }
    proof {
        assert(field.take(16) =~= field);
    }
    Some(val)
}

impl InstanceId {
    /// Encodes this instance id as its durable key
    /// `/instance/<replica-id:16hex>/<idx:16hex>`. The index must be
    /// non-negative.
    pub fn to_key(&self) -> (r: Vec<u8>)
        requires
            self.idx >= 0,
        ensures
            r@ == key_bytes(*self),
    {
        let mut out: Vec<u8> = Vec::new();
        out.push(47);
        out.push(105);
        out.push(110);
        out.push(115);
        out.push(116);
        out.push(97);
        out.push(110);
        out.push(99);
        out.push(101);
        out.push(47);
        proof {
            assert(out@ =~= key_prefix());
        }
        push_hex(&mut out, unsigned_of(self.replica_id));
        out.push(47);
        push_hex(&mut out, unsigned_of(self.idx));
        proof {
            assert(out@ =~= key_bytes(*self));
        }
        out
    }

    /// Encodes this instance id when the index is non-negative; rejects a
    /// negative index.
    pub fn checked_to_key(&self) -> (r: Option<Vec<u8>>)
        ensures
            r.is_some() == (self.idx >= 0),
            match r {
                Some(key) => key@ == key_bytes(*self),
                None => self.idx < 0,
            },
    {
        if self.idx >= 0 {
            Some(self.to_key())
        } else {
            None
        }
    }

    /// Decodes a durable key back into an instance id; accepts exactly
    /// the canonical `/instance/<16hex>/<16hex>` layout.
    pub fn from_key(s: &str) -> (r: Option<InstanceId>)
        ensures
            r == parse_key(s.spec_bytes()),
    {
        InstanceId::from_key_bytes(s.as_bytes())
    }

    /// Decodes a durable key, given as bytes, back into an instance id.
    pub fn from_key_bytes(s: &[u8]) -> (r: Option<InstanceId>)
        ensures
            r == parse_key(s@),
    {
        if s.len() != 43 {
            return None;
        }
        let mut pre: Vec<u8> = Vec::new();
        pre.push(47);
        pre.push(105);
        pre.push(110);
        pre.push(115);
        pre.push(116);
        pre.push(97);
        pre.push(110);
        pre.push(99);
        pre.push(101);
        pre.push(47);
        proof {
            assert(pre@ =~= key_prefix());
        }
        let mut k: usize = 0;
        while k < 10
            invariant
                s@.len() == 43,
                pre@ == key_prefix(),
                pre@.len() == 10,
                0 <= k <= 10,
                forall|j: int| 0 <= j < k ==> s@[j] == key_prefix()[j],
            decreases 10 - k,
        {
            if s[k] != pre[k] {
                proof {
                    assert(s@.subrange(0, 10)[k as int] != key_prefix()[k as int]);
                }
                return None;
            }
            k += 1;
        }
        proof {
            assert(s@.subrange(0, 10) =~= key_prefix());
        }
        if s[26] != 47 {
            return None;
        }
        let rid_field = parse_hex_field(s, 10);
        let rid_val = match rid_field {
            Some(v) => v,
            None => {
                return None;
            },
        };
        let idx_field = parse_hex_field(s, 27);
        let idx_val = match idx_field {
            Some(v) => v,
            None => {
                return None;
            },
        };
        let replica_id = signed_of(rid_val);
        let idx = signed_of(idx_val);
        Some(InstanceId { replica_id, idx })
    }
}

} // verus!
