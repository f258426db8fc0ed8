//! Decoding of variable-length integers: the low seven bits of each byte are
//! payload, least significant group first, and bit 6 (`0b0100_0000`) of a
//! byte is set when another byte follows.

use vstd::prelude::*;

verus! {

/// The widest encoding that a var-int type admits.
#[derive(Debug, Clone, Copy, PartialEq, Eq, Structural)]
pub enum VarIntLength {
    /// A 32-bit value: at most five bytes.
    VarInt,
    /// A 64-bit value: at most ten bytes.
    VarLong,
}

impl VarIntLength {
    /// The largest number of payload bits, seven per byte.
    pub open spec fn spec_max_length(self) -> nat {
        match self {
            VarIntLength::VarInt => 35,
            VarIntLength::VarLong => 70,
        }
    }

    /// The largest number of bytes of one encoding.
    pub open spec fn max_bytes(self) -> nat {
        self.spec_max_length() / 7
    }

    /// The largest number of payload bits that an encoding of this kind holds.
    pub fn max_length(&self) -> (r: usize)
        ensures
            r == self.spec_max_length(),
    {
        match *self {
            VarIntLength::VarInt => 35,
            VarIntLength::VarLong => 70,
        }
    }
}

/// Why a var-int could not be decoded.
#[derive(Debug, Clone, Copy, PartialEq, Eq, Structural)]
pub enum VarIntError {
    /// Every byte allowed for the type asked for another one.
    TooManyBytes { length: VarIntLength },
    /// A byte asked for another one, and the input ended.
    MissingExpectedByte,
}

/// The value `v` taken modulo `modulus` and read as a two's complement number.
pub open spec fn signed_wrap(v: int, modulus: int) -> int {
    let m = v % modulus;
    if 2 * m >= modulus {
        m - modulus
    } else {
        m
    }
}

/// A signed integer type that var-ints decode into.
pub trait VarIntOutput: Sized {
    /// The value as a mathematical integer.
    spec fn to_int(self) -> int;

    /// Two to the power of the type's width.
    spec fn modulus() -> int;

    /// The widest encoding of the type.
    spec fn length_kind() -> VarIntLength;

    /// The widest encoding of the type.
    fn max_length_kind() -> (r: VarIntLength)
        ensures
            r == Self::length_kind(),
    ;

    /// The low bits of `v` that fit the type, in two's complement.
    fn from_wrapped(v: u128) -> (r: Self)
        ensures
            r.to_int() == signed_wrap(v as int, Self::modulus()),
    ;
}

impl VarIntOutput for i32 {
    open spec fn to_int(self) -> int {
        self as int
    }

    open spec fn modulus() -> int {
        0x1_0000_0000
    }

    open spec fn length_kind() -> VarIntLength {
        VarIntLength::VarInt
    }

    fn max_length_kind() -> (r: VarIntLength) {
        VarIntLength::VarInt
    }

    fn from_wrapped(v: u128) -> (r: i32) {
        let m: u128 = v % 0x1_0000_0000;
        if m >= 0x8000_0000 {
            (m as i64 - 0x1_0000_0000i64) as i32
        } else {
            m as i32
        }
    }
}

impl VarIntOutput for i64 {
    open spec fn to_int(self) -> int {
        self as int
    }

    open spec fn modulus() -> int {
        0x1_0000_0000_0000_0000
    }

    open spec fn length_kind() -> VarIntLength {
        VarIntLength::VarLong
    }

    fn max_length_kind() -> (r: VarIntLength) {
        VarIntLength::VarLong
    }

    fn from_wrapped(v: u128) -> (r: i64) {
        let m: u128 = v % 0x1_0000_0000_0000_0000;
        if m >= 0x8000_0000_0000_0000 {
            (m as i128 - 0x1_0000_0000_0000_0000i128) as i64
        } else {
            m as i64
        }
    }
}

/// Whether a byte announces that another one follows.
pub open spec fn has_more(b: u8) -> bool {
    b & 0b0100_0000u8 != 0
}

/// The seven payload bits of a byte.
pub open spec fn payload(b: u8) -> nat {
    (b % 0x80) as nat
}

/// 128 to the power `k`: the weight of the `k`-th group of seven bits.
pub open spec fn group_weight(k: nat) -> nat
    decreases k,
{
    if k == 0 {
        1
    } else {
        128 * group_weight((k - 1) as nat)
    }
}

/// The number that the first `n` bytes of `bytes` encode, before any wrap.
pub open spec fn encoded_value(bytes: Seq<u8>, n: nat) -> nat
    decreases n,
{
    if n == 0 {
        0
    } else {
        encoded_value(bytes, (n - 1) as nat) + payload(bytes[n - 1]) * group_weight(
            (n - 1) as nat,
        )
    }
}

/// The input has at least `n` bytes, and each of the first `n` asks for another.
pub open spec fn all_continue(bytes: Seq<u8>, n: nat) -> bool {
    &&& n <= bytes.len()
    &&& forall|j: int| 0 <= j < n ==> has_more(#[trigger] bytes[j])
}

proof fn lemma_group_weight_grows(i: nat, k: nat)
    requires
        i <= k,
    ensures
        group_weight(i) <= group_weight(k),
    decreases k - i,
{
    if i < k {
        lemma_group_weight_grows(i, (k - 1) as nat);
    }
}

/// Decodes one var-int from the front of `bytes`. On success returns the
/// value, wrapped to the width of `T`, and the number of bytes it took.
pub fn get_var_int<T: VarIntOutput>(bytes: &[u8]) -> (r: Result<(T, usize), VarIntError>)
    ensures
        match r {
            Ok((v, n)) => {
                &&& 1 <= n <= T::length_kind().max_bytes()
                &&& all_continue(bytes@, (n - 1) as nat)
                &&& n <= bytes@.len()
                &&& !has_more(bytes@[n - 1])
                &&& v.to_int() == signed_wrap(encoded_value(bytes@, n as nat) as int, T::modulus())
            },
            Err(VarIntError::TooManyBytes { length }) => {
                &&& length == T::length_kind()
                &&& all_continue(bytes@, T::length_kind().max_bytes())
            },
            Err(VarIntError::MissingExpectedByte) => {
                &&& bytes@.len() < T::length_kind().max_bytes()
                &&& all_continue(bytes@, bytes@.len() as nat)
            },
        },
{
    let kind = T::max_length_kind();
    let max_len = kind.max_length();
    let mut value: u128 = 0;
    let mut weight: u128 = 1;
    let mut bit_offset: usize = 0;
    let mut read: usize = 0;
    proof {
        lemma_group_weight_grows(0, 10);
        reveal_with_fuel(group_weight, 11);
        assert(group_weight(10) == 0x40_0000_0000_0000_0000);
    }
    loop
        invariant
            max_len == kind.spec_max_length(),
            kind == T::length_kind(),
            bit_offset == 7 * read,
            read <= kind.max_bytes(),
            all_continue(bytes@, read as nat),
            value == encoded_value(bytes@, read as nat),
            weight == group_weight(read as nat),
            value < weight,
            group_weight(10) == 0x40_0000_0000_0000_0000,
        decreases kind.max_bytes() - read,
    {
        if bit_offset == max_len {
            return Err(VarIntError::TooManyBytes { length: kind });
        }
        if read >= bytes.len() {
            return Err(VarIntError::MissingExpectedByte);
        }
        let current_byte = bytes[read];
        proof {
            lemma_group_weight_grows(read as nat, 9);
            reveal_with_fuel(group_weight, 10);
            assert(group_weight(9) == 0x8000_0000_0000_0000);
            assert((current_byte % 0x80) * weight <= 127 * weight) by (nonlinear_arith)
                requires
                    current_byte % 0x80 <= 127,
            ;
        }
        value = value + (current_byte % 0x80) as u128 * weight;
        weight = weight * 128;
        bit_offset = bit_offset + 7;
        read = read + 1;
        if current_byte & 0b0100_0000u8 == 0 {
            return Ok((T::from_wrapped(value), read));
        }
    }
}

} // verus!
