//! Elements of the prime field over which the tree's hash is defined.
//!
//! A [`Felt`] holds the canonical big-endian bytes of a number below the
//! field's modulus. Its view is that number.

use vstd::prelude::*;

verus! {

/// The modulus of the field: 2^251 + 17 * 2^192 + 1.
pub open spec fn field_modulus() -> nat {
    0x0800000000000011000000000000000000000000000000000000000000000001nat
}

/// The number that a sequence of bytes denotes, most significant byte first.
pub open spec fn be_value(s: Seq<u8>) -> nat
    decreases s.len(),
{
    if s.len() == 0 {
        0
    } else {
        be_value(s.drop_last()) * 256 + s.last() as nat
    }
}

/// The character of one decimal digit.
pub open spec fn digit_char(d: nat) -> char {
    if d == 0 {
        '0'
    } else if d == 1 {
        '1'
    } else if d == 2 {
        '2'
    } else if d == 3 {
        '3'
    } else if d == 4 {
        '4'
    } else if d == 5 {
        '5'
    } else if d == 6 {
        '6'
    } else if d == 7 {
        '7'
    } else if d == 8 {
        '8'
    } else {
        '9'
    }
}

/// The canonical decimal form of a number: no sign, no leading zero, and
/// `"0"` for zero.
pub open spec fn decimal_digits(n: nat) -> Seq<char>
    decreases n,
{
    if n < 10 {
        seq![digit_char(n)]
    } else {
        decimal_digits(n / 10).push(digit_char(n % 10))
    }
}

/// One byte of the modulus, most significant first.
pub open spec fn modulus_byte(i: int) -> u8 {
    if i == 0 {
        0x08
    } else if i == 7 {
        0x11
    } else if i == 31 {
        0x01
    } else {
        0x00
    }
}

/// The 32 bytes of the modulus, most significant first.
pub open spec fn modulus_bytes() -> Seq<u8> {
    Seq::new(32, |i: int| modulus_byte(i))
}

/// One more byte multiplies the value so far by 256 and adds the byte.
pub proof fn lemma_be_value_step(s: Seq<u8>, k: int)
    requires
        0 <= k < s.len(),
    ensures
        be_value(s.take(k + 1)) == be_value(s.take(k)) * 256 + s[k] as nat,
{
    assert(s.take(k + 1).drop_last() =~= s.take(k));
}

/// Two byte sequences of one length that denote the same number are equal.
pub proof fn lemma_be_value_injective(a: Seq<u8>, b: Seq<u8>)
    requires
        a.len() == b.len(),
        be_value(a) == be_value(b),
    ensures
        a == b,
    decreases a.len(),
{
    if a.len() > 0 {
        lemma_be_value_injective(a.drop_last(), b.drop_last());
        assert(a =~= a.drop_last().push(a.last()));
        assert(b =~= b.drop_last().push(b.last()));
    } else {
        assert(a =~= b);
    }
}

/// A prefix of zero bytes denotes zero.
proof fn lemma_be_value_zeros(s: Seq<u8>, k: int)
    requires
        0 <= k <= s.len(),
        forall|j: int| 0 <= j < k ==> s[j] == 0,
    ensures
        be_value(s.take(k)) == 0,
    decreases k,
{
    if k > 0 {
        lemma_be_value_zeros(s, k - 1);
        lemma_be_value_step(s, k - 1);
    }
}

/// The value of the first `k` bytes of the modulus.
spec fn modulus_prefix(k: int) -> nat
    decreases k,
{
    if k <= 0 {
        0
    } else {
        modulus_prefix(k - 1) * 256 + modulus_byte(k - 1) as nat
    }
}

proof fn lemma_modulus_prefix(k: int)
    requires
        0 <= k <= 32,
    ensures
        be_value(modulus_bytes().take(k)) == modulus_prefix(k),
    decreases k,
{
    if k > 0 {
        lemma_modulus_prefix(k - 1);
        lemma_be_value_step(modulus_bytes(), k - 1);
    }
}

/// The bytes of the modulus denote the modulus.
pub proof fn lemma_modulus_bytes()
    ensures
        be_value(modulus_bytes()) == field_modulus(),
{
    lemma_modulus_prefix(32);
    assert(modulus_bytes().take(32) =~= modulus_bytes());
    assert(modulus_prefix(0) == 0);
    assert(modulus_prefix(1) == 0x08);
    assert(modulus_prefix(2) == 0x0800);
    assert(modulus_prefix(3) == 0x080000);
    assert(modulus_prefix(4) == 0x08000000);
    assert(modulus_prefix(5) == 0x0800000000);
    assert(modulus_prefix(6) == 0x080000000000);
    assert(modulus_prefix(7) == 0x08000000000000);
    assert(modulus_prefix(8) == 0x0800000000000011);
    assert(modulus_prefix(9) == 0x080000000000001100);
    assert(modulus_prefix(10) == 0x08000000000000110000);
    assert(modulus_prefix(11) == 0x0800000000000011000000);
    assert(modulus_prefix(12) == 0x080000000000001100000000);
    assert(modulus_prefix(13) == 0x08000000000000110000000000);
    assert(modulus_prefix(14) == 0x0800000000000011000000000000);
    assert(modulus_prefix(15) == 0x080000000000001100000000000000);
    assert(modulus_prefix(16) == 0x08000000000000110000000000000000);
    assert(modulus_prefix(17) == 0x0800000000000011000000000000000000);
    assert(modulus_prefix(18) == 0x080000000000001100000000000000000000);
    assert(modulus_prefix(19) == 0x08000000000000110000000000000000000000);
    assert(modulus_prefix(20) == 0x0800000000000011000000000000000000000000);
    assert(modulus_prefix(21) == 0x080000000000001100000000000000000000000000);
    assert(modulus_prefix(22) == 0x08000000000000110000000000000000000000000000);
    assert(modulus_prefix(23) == 0x0800000000000011000000000000000000000000000000);
    assert(modulus_prefix(24) == 0x080000000000001100000000000000000000000000000000);
    assert(modulus_prefix(25) == 0x08000000000000110000000000000000000000000000000000);
    assert(modulus_prefix(26) == 0x0800000000000011000000000000000000000000000000000000);
    assert(modulus_prefix(27) == 0x080000000000001100000000000000000000000000000000000000);
    assert(modulus_prefix(28) == 0x08000000000000110000000000000000000000000000000000000000);
    assert(modulus_prefix(29) == 0x0800000000000011000000000000000000000000000000000000000000);
    assert(modulus_prefix(30) == 0x080000000000001100000000000000000000000000000000000000000000);
    assert(modulus_prefix(31) == 0x08000000000000110000000000000000000000000000000000000000000000);
    assert(modulus_prefix(32)
        == 0x0800000000000011000000000000000000000000000000000000000000000001);
}

/// The big-endian bytes of a `u64` in the low eight places, zeros above.
pub open spec fn is_u64_bytes(s: Seq<u8>, x: u64) -> bool {
    &&& s.len() == 32
    &&& forall|j: int| 0 <= j < 24 ==> s[j] == 0
    &&& s[24] == (x >> 56) & 0xff
    &&& s[25] == (x >> 48) & 0xff
    &&& s[26] == (x >> 40) & 0xff
    &&& s[27] == (x >> 32) & 0xff
    &&& s[28] == (x >> 24) & 0xff
    &&& s[29] == (x >> 16) & 0xff
    &&& s[30] == (x >> 8) & 0xff
    &&& s[31] == x & 0xff
}

/// Bytes laid out as `is_u64_bytes` says denote the `u64`.
proof fn lemma_u64_bytes(s: Seq<u8>, x: u64)
    requires
        is_u64_bytes(s, x),
    ensures
        be_value(s) == x,
{
    lemma_be_value_zeros(s, 24);
    lemma_be_value_step(s, 24);
    lemma_be_value_step(s, 25);
    lemma_be_value_step(s, 26);
    lemma_be_value_step(s, 27);
    lemma_be_value_step(s, 28);
    lemma_be_value_step(s, 29);
    lemma_be_value_step(s, 30);
    lemma_be_value_step(s, 31);
    assert(s.take(32) =~= s);
    assert((x >> 56) & 0xff == x >> 56) by (bit_vector);
    assert(x >> 48 == (x >> 56) * 256 + ((x >> 48) & 0xff)) by (bit_vector);
    assert(x >> 40 == (x >> 48) * 256 + ((x >> 40) & 0xff)) by (bit_vector);
    assert(x >> 32 == (x >> 40) * 256 + ((x >> 32) & 0xff)) by (bit_vector);
    assert(x >> 24 == (x >> 32) * 256 + ((x >> 24) & 0xff)) by (bit_vector);
    assert(x >> 16 == (x >> 24) * 256 + ((x >> 16) & 0xff)) by (bit_vector);
    assert(x >> 8 == (x >> 16) * 256 + ((x >> 8) & 0xff)) by (bit_vector);
    assert(x == (x >> 8) * 256 + (x & 0xff)) by (bit_vector);
}

/// One byte of a `u64`, counted from the least significant.
fn byte_of(x: u64, shift: u32) -> (b: u8)
    requires
        shift <= 56,
    ensures
        b == (x >> shift) & 0xff,
{
    let low: u64 = (x >> shift) & 0xff;
    assert(low <= 0xff) by (bit_vector)
        requires
            low == (x >> shift) & 0xff,
    ;
    low as u8
}

/// A field element: a number below the field's modulus.
#[derive(Clone, Copy, Debug)]
pub struct Felt {
    pub(crate) bytes: [u8; 32],
}

impl View for Felt {
    type V = nat;

    /// The number that the element stands for.
    closed spec fn view(&self) -> nat {
        be_value(self.bytes@)
    }
}

impl Felt {
    #[verifier::type_invariant]
    closed spec fn canonical(self) -> bool {
        be_value(self.bytes@) < field_modulus()
    }

    /// The additive identity.
    pub fn zero() -> (r: Felt)
        ensures
            r@ == 0,
    {
        let bytes = [0u8; 32];
        proof {
            lemma_be_value_zeros(bytes@, 32);
            assert(bytes@.take(32) =~= bytes@);
        }
        Felt { bytes }
    }

    /// The element with the value of `x`.
    pub fn from_u64(x: u64) -> (r: Felt)
        ensures
            r@ == x,
    {
        let mut bytes = [0u8; 32];
        bytes[24] = byte_of(x, 56);
        bytes[25] = byte_of(x, 48);
        bytes[26] = byte_of(x, 40);
        bytes[27] = byte_of(x, 32);
        bytes[28] = byte_of(x, 24);
        bytes[29] = byte_of(x, 16);
        bytes[30] = byte_of(x, 8);
        bytes[31] = byte_of(x, 0);
        proof {
            assert(x >> 0 == x) by (bit_vector);
            lemma_u64_bytes(bytes@, x);
        }
        Felt { bytes }
    }

    /// The element that 32 big-endian bytes denote, if they denote a number
    /// below the modulus.
    pub fn from_bytes_be(bytes: &[u8; 32]) -> (r: Option<Felt>)
        ensures
            r is Some <==> be_value(bytes@) < field_modulus(),
            r matches Some(f) ==> f@ == be_value(bytes@),
    {
        let mut i: usize = 0;
        let mut less = false;
        let mut greater = false;
        while i < 32
            invariant
                i <= 32,
                less <==> be_value(bytes@.take(i as int)) < be_value(
                    modulus_bytes().take(i as int),
                ),
                greater <==> be_value(bytes@.take(i as int)) > be_value(
                    modulus_bytes().take(i as int),
                ),
            decreases 32 - i,
        {
            let b = bytes[i];
            let m = modulus_byte_at(i);
            proof {
                lemma_be_value_step(bytes@, i as int);
                lemma_be_value_step(modulus_bytes(), i as int);
            }
            if !less && !greater {
                if b < m {
                    less = true;
                } else if b > m {
                    greater = true;
                }
            }
            i = i + 1;
        }
        proof {
            assert(bytes@.take(32) =~= bytes@);
            assert(modulus_bytes().take(32) =~= modulus_bytes());
            lemma_modulus_bytes();
        }
        if less {
            Some(Felt { bytes: *bytes })
        } else {
            None
        }
    }

    /// The 32 big-endian bytes of the element.
    pub fn to_bytes_be(&self) -> (b: [u8; 32])
        ensures
            be_value(b@) == self@,
            be_value(b@) < field_modulus(),
    {
        proof {
            use_type_invariant(self);
        }
        self.bytes
    }

    /// The canonical decimal form of the element.
    pub fn to_string(&self) -> (s: String)
        ensures
            s@ == decimal_digits(self@),
    {
        decimal_string(&self.bytes)
    }
}

fn modulus_byte_at(i: usize) -> (b: u8)
    requires
        i < 32,
    ensures
        b == modulus_byte(i as int),
{
    if i == 0 {
        0x08
    } else if i == 7 {
        0x11
    } else if i == 31 {
        0x01
    } else {
        0x00
    }
}

/// Calls `num_bigint::BigUint::from_bytes_be` and the `Display` of the result.
/// The first reads the bytes as a big-endian number; the second writes a
/// number in radix 10, most significant digit first, `"0"` for zero and no
/// leading zero otherwise. The contract states that of the two together.
#[verifier::external_body]
fn decimal_string(bytes: &[u8; 32]) -> (s: String)
    ensures
        s@ == decimal_digits(be_value(bytes@)),
{
    num_bigint::BigUint::from_bytes_be(bytes).to_string()
}

impl PartialEq for Felt {
    fn eq(&self, other: &Felt) -> (r: bool) {
        let mut i: usize = 0;
        while i < 32
            invariant
                i <= 32,
                forall|j: int| 0 <= j < i ==> self.bytes@[j] == other.bytes@[j],
            decreases 32 - i,
        {
            if self.bytes[i] != other.bytes[i] {
                proof {
                    if be_value(self.bytes@) == be_value(other.bytes@) {
                        lemma_be_value_injective(self.bytes@, other.bytes@);
                    }
                }
                return false;
            }
            i = i + 1;
        }
        assert(self.bytes@ =~= other.bytes@);
        true
    }
}

impl Eq for Felt {

}

impl vstd::std_specs::cmp::PartialEqSpecImpl for Felt {
    open spec fn obeys_eq_spec() -> bool {
        true
    }

    open spec fn eq_spec(&self, other: &Felt) -> bool {
        self@ == other@
    }
}

} // verus!
