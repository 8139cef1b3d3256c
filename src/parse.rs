use vstd::prelude::*;
use vstd::string::StrSliceExecFns;

use crate::bits::bit_of_byte;
use crate::cpumask::{filled, Cpumask, CpumaskError};

verus! {

/// The error of hex::decode, carried opaquely and mapped to `ParseError`.
#[verifier::external_type_specification]
#[verifier::external_body]
pub struct ExFromHexError(hex::FromHexError);

/// Whether the byte is an ASCII hexadecimal digit of either case.
pub open spec fn is_hex_byte(c: u8) -> bool {
    (48 <= c && c <= 57) || (65 <= c && c <= 70) || (97 <= c && c <= 102)
}

/// The value of a hexadecimal digit.
pub open spec fn hex_byte_val(c: u8) -> int {
    if 48 <= c && c <= 57 {
        c - 48
    } else if 65 <= c && c <= 70 {
        c - 55
    } else {
        c - 87
    }
}

/// The bytes that an even number of hexadecimal digits spell, two digits a
/// byte, the first digit the high half; `None` for an odd count or a non-digit.
pub open spec fn hex_decode_spec(b: Seq<u8>) -> Option<Seq<u8>> {
    if b.len() % 2 == 0 && forall|i: int| 0 <= i < b.len() ==> is_hex_byte(#[trigger] b[i]) {
        Some(
            Seq::new(
                b.len() / 2,
                |k: int| (hex_byte_val(b[2 * k]) * 16 + hex_byte_val(b[2 * k + 1])) as u8,
            ),
        )
    } else {
        None
    }
}

/// Relies on hex::decode: it fails on an odd length or a byte that is not a
/// hexadecimal digit, and otherwise gives one byte for each pair of digits.
#[verifier::external_body]
fn hex_decode(b: &Vec<u8>) -> (r: Result<Vec<u8>, hex::FromHexError>)
    ensures
        r is Ok <==> hex_decode_spec(b@) is Some,
        r matches Ok(v) ==> v@ == hex_decode_spec(b@).unwrap(),
{
    hex::decode(b)
}

/// The text without a leading `0x`.
pub open spec fn strip_hex_prefix(s: Seq<char>) -> Seq<char> {
    if s.len() >= 2 && s[0] == '0' && s[1] == 'x' {
        s.subrange(2, s.len() as int)
    } else {
        s
    }
}

/// The text without its `_` separators.
pub open spec fn drop_separators(s: Seq<char>) -> Seq<char>
    decreases s.len(),
{
    if s.len() == 0 {
        s
    } else {
        let r = drop_separators(s.drop_last());
        if s.last() == '_' {
            r
        } else {
            r.push(s.last())
        }
    }
}

/// The digits, with a `0` in front where their count is odd.
pub open spec fn pad_even(s: Seq<char>) -> Seq<char> {
    if s.len() % 2 == 1 {
        seq!['0'] + s
    } else {
        s
    }
}

/// The digits that a hexadecimal mask text stands for.
pub open spec fn hex_digits(s: Seq<char>) -> Seq<char> {
    pad_even(drop_separators(strip_hex_prefix(s)))
}

pub open spec fn is_ascii_char(c: char) -> bool {
    (c as u32) < 128
}

pub open spec fn ascii_bytes(d: Seq<char>) -> Seq<u8> {
    Seq::new(d.len(), |i: int| (d[i] as u32) as u8)
}

/// Bit `p` of a big-endian byte string: the last byte holds bits 0 to 7, its
/// least significant bit being bit 0.
pub open spec fn byte_bit(bytes: Seq<u8>, p: int) -> bool {
    0 <= p < bytes.len() * 8 && bit_of_byte(bytes[bytes.len() - 1 - p / 8], (p % 8) as u8)
}

/// The mask of `n` CPUs that a hexadecimal text gives, or `None` where the text
/// is malformed or names a CPU at or beyond `n`.
pub open spec fn parse_mask(s: Seq<char>, n: nat) -> Option<Seq<bool>> {
    let d = hex_digits(s);
    if exists|i: int| 0 <= i < d.len() && !is_ascii_char(#[trigger] d[i]) {
        None
    } else {
        match hex_decode_spec(ascii_bytes(d)) {
            None => None,
            Some(bytes) => if exists|p: int| n <= p && #[trigger] byte_bit(bytes, p) {
                None
            } else {
                Some(Seq::new(n, |i: int| byte_bit(bytes, i)))
            },
        }
    }
}

proof fn lemma_scaled_bound(idx: int, n: int)
    requires
        0 <= idx,
        0 <= n,
    ensures
        idx <= n / 8 ==> idx * 8 <= n,
        idx > n / 8 ==> idx * 8 > n,
{
    let q = n / 8;
    assert(n == q * 8 + n % 8 && 0 <= n % 8 < 8);
    assert(idx <= q ==> idx * 8 <= q * 8) by (nonlinear_arith);
    assert(idx > q ==> idx * 8 >= q * 8 + 8) by (nonlinear_arith);
}

proof fn lemma_byte_position(bytes: Seq<u8>, idx: int, b: int)
    requires
        0 <= idx < bytes.len(),
        0 <= b < 8,
    ensures
        byte_bit(bytes, idx * 8 + b) == bit_of_byte(bytes[bytes.len() - 1 - idx], b as u8),
{
    assert((idx * 8 + b) / 8 == idx);
    assert((idx * 8 + b) % 8 == b);
}

/// The digits of a mask text as ASCII bytes, or `ParseError` on a character
/// beyond ASCII.
fn digit_bytes(cpumask: &String) -> (r: Result<Vec<u8>, CpumaskError>)
    ensures
        r is Ok <==> forall|i: int|
            0 <= i < hex_digits(cpumask@).len() ==> is_ascii_char(
                #[trigger] hex_digits(cpumask@)[i],
            ),
        r is Err ==> r == Err::<Vec<u8>, CpumaskError>(CpumaskError::ParseError),
        r matches Ok(v) ==> v@ == ascii_bytes(hex_digits(cpumask@)),
{
    let s = cpumask.as_str();
    let len = s.unicode_len();
    let start: usize = if len >= 2 && s.get_char(0) == '0' && s.get_char(1) == 'x' {
        2
    } else {
        0
    };
    proof {
        assert(strip_hex_prefix(s@) =~= s@.subrange(start as int, len as int));
    }
    let mut kept: Vec<char> = Vec::new();
    let mut i: usize = start;
    while i < len
        invariant
            len == s@.len(),
            start <= i <= len,
            kept@ == drop_separators(s@.subrange(start as int, i as int)),
        decreases len - i,
    {
        let c = s.get_char(i);
        proof {
            assert(s@.subrange(start as int, i + 1).drop_last() =~= s@.subrange(
                start as int,
                i as int,
            ));
        }
        if c != '_' {
            kept.push(c);
        }
        i = i + 1;
    }
    let ghost d = hex_digits(s@);
    let mut out: Vec<u8> = Vec::new();
    let off: usize = if kept.len() % 2 == 1 {
        out.push(48u8);
        1
    } else {
        0
    };
    proof {
        assert(d == pad_even(kept@));
        assert(d.len() == kept@.len() + off);
        assert forall|k: int| 0 <= k < kept@.len() implies d[k + off] == kept@[k] by {}
    }
    let mut j: usize = 0;
    while j < kept.len()
        invariant
            d == pad_even(kept@),
            d == hex_digits(cpumask@),
            d.len() == kept@.len() + off,
            forall|k: int| 0 <= k < kept@.len() ==> d[k + off] == #[trigger] kept@[k],
            off == 0 || (off == 1 && d[0] == '0'),
            j <= kept@.len(),
            out@.len() == j + off,
            forall|k: int| 0 <= k < j + off ==> is_ascii_char(#[trigger] d[k]),
            out@ == ascii_bytes(d).subrange(0, j + off),
        decreases kept@.len() - j,
    {
        let c = kept[j];
        if (c as u32) >= 128 {
            proof {
                assert(!is_ascii_char(d[j + off]));
                assert(!is_ascii_char(hex_digits(cpumask@)[j + off]));
            }
            return Err(CpumaskError::ParseError);
        }
        out.push((c as u32) as u8);
        proof {
            assert(out@ =~= ascii_bytes(d).subrange(0, j + off + 1));
        }
        j = j + 1;
    }
    proof {
        assert(out@ =~= ascii_bytes(d));
    }
    Ok(out)
}

impl Cpumask {
    /// Builds a mask of `nr_cpus` CPUs from hexadecimal text: an optional
    /// `0x`, digits with optional `_` separators, the last two digits being
    /// CPUs 0 to 7. Fails with `ParseError` on malformed text or on a CPU at or
    /// beyond `nr_cpus`.
    pub fn from_str(cpumask: &String, nr_cpus: usize) -> (r: Result<Cpumask, CpumaskError>)
        ensures
            r is Ok <==> parse_mask(cpumask@, nr_cpus as nat) is Some,
            r is Err ==> r == Err::<Cpumask, CpumaskError>(CpumaskError::ParseError),
            r matches Ok(m) ==> m.wf() && m@ == parse_mask(cpumask@, nr_cpus as nat).unwrap(),
    {
        let ghost n = nr_cpus as nat;
        let ghost d = hex_digits(cpumask@);
        let digits = match digit_bytes(cpumask) {
            Ok(v) => v,
            Err(e) => {
                return Err(e);
            },
        };
        let bytes = match hex_decode(&digits) {
            Ok(v) => v,
            Err(_) => {
                return Err(CpumaskError::ParseError);
            },
        };
        let nb = bytes.len();
        let ghost outcome = if exists|p: int| n <= p && #[trigger] byte_bit(bytes@, p) {
            None
        } else {
            Some(Seq::new(n, |i: int| byte_bit(bytes@, i)))
        };
        proof {
            assert(parse_mask(cpumask@, n) == outcome);
        }
        let mut m = Cpumask::new(nr_cpus);
        let mut idx: usize = 0;
        while idx < nb
            invariant
                nb == bytes@.len(),
                n == nr_cpus as nat,
                parse_mask(cpumask@, n) == outcome,
                outcome == if exists|p: int| n <= p && #[trigger] byte_bit(bytes@, p) {
                    None
                } else {
                    Some(Seq::new(n, |i: int| byte_bit(bytes@, i)))
                },
                idx <= nb,
                m.wf(),
                m@.len() == n,
                forall|p: int| 0 <= p < idx * 8 ==> #[trigger] byte_bit(bytes@, p) ==> p < n,
                m@ == Seq::new(n, |i: int| i < idx * 8 && byte_bit(bytes@, i)),
            decreases nb - idx,
        {
            let byte = bytes[nb - 1 - idx];
            let mut b: u8 = 0;
            while b < 8
                invariant
                    nb == bytes@.len(),
                    n == nr_cpus as nat,
                    parse_mask(cpumask@, n) == outcome,
                    outcome == if exists|p: int| n <= p && #[trigger] byte_bit(bytes@, p) {
                        None
                    } else {
                        Some(Seq::new(n, |i: int| byte_bit(bytes@, i)))
                    },
                outcome == if exists|p: int| n <= p && #[trigger] byte_bit(bytes@, p) {
                    None
                } else {
                    Some(Seq::new(n, |i: int| byte_bit(bytes@, i)))
                },
                parse_mask(cpumask@, n) == outcome,
                outcome == if exists|p: int| n <= p && #[trigger] byte_bit(bytes@, p) {
                    None
                } else {
                    Some(Seq::new(n, |i: int| byte_bit(bytes@, i)))
                },
                    idx < nb,
                    byte == bytes@[nb - 1 - idx],
                    b <= 8,
                    m.wf(),
                    m@.len() == n,
                    forall|p: int|
                        0 <= p < idx * 8 + b ==> #[trigger] byte_bit(bytes@, p) ==> p < n,
                    m@ == Seq::new(n, |i: int| i < idx * 8 + b && byte_bit(bytes@, i)),
                decreases 8 - b,
            {
                proof {
                    lemma_byte_position(bytes@, idx as int, b as int);
                }
                let ghost pos = idx * 8 + b;
                proof {
                    lemma_scaled_bound(idx as int, nr_cpus as int);
                }
                if (byte >> b) & 1u8 == 1u8 {
                    if idx > nr_cpus / 8 || (b as usize) >= nr_cpus - idx * 8 {
                        proof {
                            assert(byte_bit(bytes@, pos));
                            assert(n <= pos);
                        }
                        return Err(CpumaskError::ParseError);
                    }
                    let cpu = idx * 8 + b as usize;
                    m.write_cpu(cpu, true);
                }
                proof {
                    assert(m@ =~= Seq::new(n, |i: int| i < pos + 1 && byte_bit(bytes@, i)));
                }
                b = b + 1;
            }
            idx = idx + 1;
        }
        proof {
            assert forall|p: int| n <= p implies !#[trigger] byte_bit(bytes@, p) by {}
            assert(m@ =~= Seq::new(n, |i: int| byte_bit(bytes@, i)));
        }
        Ok(m)
    }
}

} // verus!
