//! Integer widths, byte orders, and the encoding of integers into bytes.

use vstd::prelude::*;
use vstd::arithmetic::div_mod::lemma_div_denominator;
use vstd::arithmetic::div_mod::lemma_fundamental_div_mod;
use vstd::layout::layout_of_primitives;
use vstd::layout::size_of;
use crate::error::Error;
use crate::error::ErrorView;
use crate::text::chars_eq;
use crate::text::chars_of;
use crate::text::ends_with;
use crate::text::prefix_ends_with;
use crate::text::trim_end_char;
use crate::text::trim_end_pattern;
use crate::text::trimmed_end_char_len;
use crate::text::trimmed_end_pattern_len;

verus! {

/// One of the two orders in which the bytes of a number can stand.
#[derive(Debug, Clone, Copy, PartialEq, Eq, Structural)]
pub enum ByteOrder {
    /// Least significant byte first.
    Little,
    /// Most significant byte first.
    Big,
}

/// The byte order that a value asks for: one of the two, or that of the machine.
#[derive(Debug, Clone, Copy, PartialEq, Eq, Structural)]
pub enum Endianness {
    Little,
    Big,
    Native,
}

/// The width and signedness of an integer.
#[derive(Debug, Clone, Copy, PartialEq, Eq, Structural)]
pub enum IntType {
    U8,
    U16,
    U24,
    U32,
    U64,
    USize,
    I8,
    I16,
    I24,
    I32,
    I64,
    ISize,
}

/// 256 to the power `n`.
pub open spec fn pow256(n: nat) -> nat
    decreases n,
{
    if n == 0 {
        1
    } else {
        256 * pow256((n - 1) as nat)
    }
}

/// Byte `i` of `value`, counted from the least significant one.
pub open spec fn byte_at(value: nat, i: nat) -> u8 {
    ((value / pow256(i)) % 256) as u8
}

/// The `width` low bytes of `value`, least significant first.
pub open spec fn le_bytes(value: nat, width: nat) -> Seq<u8> {
    Seq::new(width, |i: int| byte_at(value, i as nat))
}

/// The `width` low bytes of `value`, most significant first.
pub open spec fn be_bytes(value: nat, width: nat) -> Seq<u8> {
    Seq::new(width, |i: int| byte_at(value, (width - 1 - i) as nat))
}

/// The number that `bytes` stand for, least significant byte first.
pub open spec fn le_value(bytes: Seq<u8>) -> nat
    decreases bytes.len(),
{
    if bytes.len() == 0 {
        0
    } else {
        bytes[0] as nat + 256 * le_value(bytes.drop_first())
    }
}

/// The number that `bytes` stand for, most significant byte first.
pub open spec fn be_value(bytes: Seq<u8>) -> nat
    decreases bytes.len(),
{
    if bytes.len() == 0 {
        0
    } else {
        256 * be_value(bytes.drop_last()) + bytes.last() as nat
    }
}

/// The natural number whose `width` bytes stand for `v` in two's complement.
pub open spec fn wrapped(v: int, width: nat) -> nat {
    if v < 0 {
        (v + pow256(width)) as nat
    } else {
        v as nat
    }
}

impl Endianness {
    /// The order that `self` stands for on a machine whose own order is `native`.
    pub open spec fn resolved(self, native: ByteOrder) -> ByteOrder {
        match self {
            Endianness::Little => ByteOrder::Little,
            Endianness::Big => ByteOrder::Big,
            Endianness::Native => native,
        }
    }

    pub fn resolve(self, native: ByteOrder) -> (r: ByteOrder)
        ensures
            r == self.resolved(native),
    {
        match self {
            Endianness::Little => ByteOrder::Little,
            Endianness::Big => ByteOrder::Big,
            Endianness::Native => native,
        }
    }
}

impl IntType {
    /// The number of bytes of a value of this type.
    pub open spec fn width(self) -> nat {
        match self {
            IntType::U8 | IntType::I8 => 1,
            IntType::U16 | IntType::I16 => 2,
            IntType::U24 | IntType::I24 => 3,
            IntType::U32 | IntType::I32 => 4,
            IntType::U64 | IntType::I64 => 8,
            IntType::USize | IntType::ISize => size_of::<usize>(),
        }
    }

    pub open spec fn is_signed(self) -> bool {
        match self {
            IntType::I8 | IntType::I16 | IntType::I24 | IntType::I32 | IntType::I64 | IntType::ISize => true,
            _ => false,
        }
    }

    /// The least value of this type.
    pub open spec fn min_value(self) -> int {
        if self.is_signed() {
            -(pow256(self.width()) as int / 2)
        } else {
            0
        }
    }

    /// The greatest value of this type.
    pub open spec fn max_value(self) -> int {
        if self.is_signed() {
            pow256(self.width()) as int / 2 - 1
        } else {
            pow256(self.width()) - 1
        }
    }

    /// `v` is a value of this type.
    pub open spec fn holds(self, v: int) -> bool {
        self.min_value() <= v <= self.max_value()
    }

    pub fn num_bytes(self) -> (r: usize)
        ensures
            r == self.width(),
            1 <= r <= 8,
    {
        broadcast use layout_of_primitives;

        match self {
            IntType::U8 | IntType::I8 => 1,
            IntType::U16 | IntType::I16 => 2,
            IntType::I24 | IntType::U24 => 3,
            IntType::U32 | IntType::I32 => 4,
            IntType::U64 | IntType::I64 => 8,
            IntType::USize | IntType::ISize => core::mem::size_of::<usize>(),
        }
    }

    pub fn signed(self) -> (r: bool)
        ensures
            r == self.is_signed(),
    {
        match self {
            IntType::I8 | IntType::I16 | IntType::I24 | IntType::I32 | IntType::I64 | IntType::ISize => true,
            _ => false,
        }
    }

    /// Whether `v` is a value of this type.
    pub fn fits(self, v: i128) -> (r: bool)
        ensures
            r == self.holds(v as int),
    {
        let p: u128 = pow256_of(self.num_bytes());
        proof {
            lemma_pow256_bounds(self.width());
        }
        if self.signed() {
            let half: i128 = (p / 2) as i128;
            -half <= v && v < half
        } else {
            0 <= v && v < p as i128
        }
    }
}

/// The bytes of the value `v` of the type `t` in the order `order`.
pub open spec fn encode(t: IntType, order: ByteOrder, v: int) -> Seq<u8> {
    match order {
        ByteOrder::Little => le_bytes(wrapped(v, t.width()), t.width()),
        ByteOrder::Big => be_bytes(wrapped(v, t.width()), t.width()),
    }
}

/// The value of the type `t` that `bytes` stand for in the order `order`.
pub open spec fn decode(t: IntType, order: ByteOrder, bytes: Seq<u8>) -> int {
    let u = match order {
        ByteOrder::Little => le_value(bytes),
        ByteOrder::Big => be_value(bytes),
    };
    if t.is_signed() && 2 * u >= pow256(bytes.len()) {
        u - pow256(bytes.len())
    } else {
        u as int
    }
}

pub proof fn lemma_pow256_positive(n: nat)
    ensures
        pow256(n) > 0,
    decreases n,
{
    if n > 0 {
        lemma_pow256_positive((n - 1) as nat);
    }
}

/// The powers of 256 up to the eighth, and that each is even.
pub proof fn lemma_pow256_bounds(n: nat)
    ensures
        n == 1 ==> pow256(n) == 0x100,
        n == 2 ==> pow256(n) == 0x1_0000,
        n == 3 ==> pow256(n) == 0x100_0000,
        n == 4 ==> pow256(n) == 0x1_0000_0000,
        n == 8 ==> pow256(n) == 0x1_0000_0000_0000_0000,
        n <= 8 ==> pow256(n) <= 0x1_0000_0000_0000_0000,
        n >= 1 ==> pow256(n) % 2 == 0,
    decreases n,
{
    reveal_with_fuel(pow256, 10);
    if n > 8 {
        lemma_pow256_bounds((n - 1) as nat);
    }
}

fn pow256_of(width: usize) -> (r: u128)
    requires
        width <= 8,
    ensures
        r == pow256(width as nat),
{
    let mut r: u128 = 1;
    let mut i: usize = 0;
    while i < width
        invariant
            i <= width <= 8,
            r == pow256(i as nat),
        decreases width - i,
    {
        proof {
            lemma_pow256_bounds(i as nat);
        }
        r = r * 256;
        i += 1;
    }
    r
}

/// Byte `i + 1` of a number is byte `i` of its quotient by 256.
pub proof fn lemma_byte_at_shift(value: nat, i: nat)
    ensures
        byte_at(value, i + 1) == byte_at(value / 256, i),
        value / pow256(i + 1) == (value / pow256(i)) / 256,
        value / pow256(i + 1) == (value / 256) / pow256(i),
{
    lemma_pow256_positive(i);
    lemma_div_denominator(value as int, 256, pow256(i) as int);
    lemma_div_denominator(value as int, pow256(i) as int, 256);
    assert(256 * pow256(i) == pow256(i) * 256) by (nonlinear_arith);
}

/// A number below `256^width` is what its `width` bytes stand for, in either order.
pub proof fn lemma_bytes_value(value: nat, width: nat)
    requires
        value < pow256(width),
    ensures
        le_value(le_bytes(value, width)) == value,
        be_value(be_bytes(value, width)) == value,
    decreases width,
{
    if width > 0 {
        let rest = value / 256;
        let w = (width - 1) as nat;
        lemma_fundamental_div_mod(value as int, 256);
        assert(rest < pow256(w)) by (nonlinear_arith)
            requires
                value < 256 * pow256(w),
                rest == value / 256,
        ;
        lemma_bytes_value(rest, w);
        assert(le_bytes(value, width).drop_first() =~= le_bytes(rest, w)) by {
            assert forall|i: int| 0 <= i < w implies le_bytes(value, width).drop_first()[i]
                == le_bytes(rest, w)[i] by {
                lemma_byte_at_shift(value, i as nat);
            }
        }
        assert(be_bytes(value, width).drop_last() =~= be_bytes(rest, w)) by {
            assert forall|i: int| 0 <= i < w implies be_bytes(value, width).drop_last()[i]
                == be_bytes(rest, w)[i] by {
                lemma_byte_at_shift(value, (w - 1 - i) as nat);
            }
        }
        assert(pow256(0) == 1);
        assert(byte_at(value, 0) == (value % 256) as u8);
    }
}

/// The wrapped form of a value of the type `t` lies below `256^width`.
pub proof fn lemma_wrapped_bound(t: IntType, v: int)
    requires
        t.holds(v),
    ensures
        wrapped(v, t.width()) < pow256(t.width()),
        t.is_signed() && v >= 0 ==> 2 * wrapped(v, t.width()) < pow256(t.width()),
        t.is_signed() && v < 0 ==> 2 * wrapped(v, t.width()) >= pow256(t.width()),
{
    broadcast use layout_of_primitives;

    lemma_pow256_bounds(t.width());
}

impl ByteOrder {
    /// The bytes of `value` as a value of `int_type`, in this order.
    pub fn to_bytes(self, int_type: IntType, value: i128) -> (r: Vec<u8>)
        requires
            int_type.holds(value as int),
        ensures
            r@ == encode(int_type, self, value as int),
    {
        let width: usize = int_type.num_bytes();
        let p: u128 = pow256_of(width);
        proof {
            lemma_pow256_bounds(width as nat);
            lemma_wrapped_bound(int_type, value as int);
        }
        let u: u128 = if value < 0 {
            (value + p as i128) as u128
        } else {
            value as u128
        };
        let low: Vec<u8> = low_bytes(u, width);
        match self {
            ByteOrder::Little => low,
            ByteOrder::Big => {
                let mut out: Vec<u8> = Vec::new();
                let mut i: usize = 0;
                while i < width
                    invariant
                        i <= width,
                        low@ == le_bytes(u as nat, width as nat),
                        out@ == be_bytes(u as nat, width as nat).take(i as int),
                    decreases width - i,
                {
                    out.push(low[width - 1 - i]);
                    assert(out@ =~= be_bytes(u as nat, width as nat).take(i + 1));
                    i += 1;
                }
                assert(out@ =~= be_bytes(u as nat, width as nat));
                out
            },
        }
    }
}

/// The `width` low bytes of `value`, least significant first.
fn low_bytes(value: u128, width: usize) -> (r: Vec<u8>)
    ensures
        r@ == le_bytes(value as nat, width as nat),
{
    let mut out: Vec<u8> = Vec::new();
    let mut rest: u128 = value;
    let mut i: usize = 0;
    assert(pow256(0) == 1);
    while i < width
        invariant
            i <= width,
            rest == value as nat / pow256(i as nat),
            out@ == le_bytes(value as nat, width as nat).take(i as int),
        decreases width - i,
    {
        proof {
            lemma_byte_at_shift(value as nat, i as nat);
        }
        out.push((rest % 256) as u8);
        assert(out@ =~= le_bytes(value as nat, width as nat).take(i + 1));
        rest = rest / 256;
        i += 1;
    }
    assert(out@ =~= le_bytes(value as nat, width as nat));
    out
}

/// Encoding and then decoding a value of a type, in one order, gives the value back.
pub proof fn lemma_encode_decode(t: IntType, order: ByteOrder, v: int)
    requires
        t.holds(v),
    ensures
        encode(t, order, v).len() == t.width(),
        decode(t, order, encode(t, order, v)) == v,
{
    lemma_wrapped_bound(t, v);
    lemma_bytes_value(wrapped(v, t.width()), t.width());
}

/// The three bytes of a 24-bit value are the three low bytes of the same value
/// taken as a 32-bit one: the first three in little-endian order, the last
/// three in big-endian order.
pub proof fn lemma_24_bit_is_slice_of_32_bit(v: int)
    ensures
        IntType::U24.holds(v) ==> {
            &&& IntType::U32.holds(v)
            &&& encode(IntType::U24, ByteOrder::Little, v) == encode(
                IntType::U32,
                ByteOrder::Little,
                v,
            ).take(3)
            &&& encode(IntType::U24, ByteOrder::Big, v) == encode(IntType::U32, ByteOrder::Big, v).skip(1)
        },
        IntType::I24.holds(v) ==> {
            &&& IntType::I32.holds(v)
            &&& encode(IntType::I24, ByteOrder::Little, v) == encode(
                IntType::I32,
                ByteOrder::Little,
                v,
            ).take(3)
            &&& encode(IntType::I24, ByteOrder::Big, v) == encode(IntType::I32, ByteOrder::Big, v).skip(1)
        },
{
    lemma_pow256_bounds(3);
    lemma_pow256_bounds(4);
    if IntType::U24.holds(v) {
        let u = wrapped(v, 3);
        assert(wrapped(v, 4) == u);
        assert(le_bytes(u, 3) =~= le_bytes(u, 4).take(3));
        assert(be_bytes(u, 3) =~= be_bytes(u, 4).skip(1));
    }
    if IntType::I24.holds(v) {
        let a = wrapped(v, 3);
        let b = wrapped(v, 4);
        assert forall|i: nat| i < 3 implies byte_at(a, i) == byte_at(b, i) by {
            lemma_pow256_bounds(i);
            lemma_pow256_positive(i);
            if v < 0 {
                let p = pow256(i) as int;
                let k: int = if i == 0 {
                    0xff_0000int
                } else if i == 1 {
                    0xff00int
                } else {
                    0xffint
                };
                let x = a as int;
                assert(p == 1 || p == 0x100 || p == 0x1_0000) by {
                    reveal_with_fuel(pow256, 3);
                }
                assert(b == x + 256 * k * p);
                assert((x + 256 * k * p) / p == x / p + 256 * k) by (nonlinear_arith)
                    requires
                        p > 0,
                        x >= 0,
                ;
                assert((x / p + 256 * k) % 256 == (x / p) % 256) by (nonlinear_arith);
            }
        }
        assert(le_bytes(a, 3) =~= le_bytes(b, 4).take(3));
        assert(be_bytes(a, 3) =~= be_bytes(b, 4).skip(1));
    }
}

/// What came back from a function that may fail, with the value and the
/// failure taken by their views.
pub open spec fn outcome<T: View>(r: Result<T, Error>) -> Result<T::V, ErrorView> {
    match r {
        Ok(v) => Ok(v@),
        Err(e) => Err(e@),
    }
}

/// `'0'` to `'9'`.
pub open spec fn is_digit(c: char) -> bool {
    '0' <= c && c <= '9'
}

/// The number that the decimal digit `c` stands for.
pub open spec fn digit_value(c: char) -> nat {
    (c as u32 - '0' as u32) as nat
}

/// The number that a sequence of decimal digits stands for.
pub open spec fn decimal_value(s: Seq<char>) -> nat
    decreases s.len(),
{
    if s.len() == 0 {
        0
    } else {
        10 * decimal_value(s.drop_last()) + digit_value(s.last())
    }
}

/// The number that `s` stands for, if `s` is one or more decimal digits.
pub open spec fn unsigned_decimal(s: Seq<char>) -> Option<int> {
    if s.len() > 0 && (forall|i: int| 0 <= i < s.len() ==> is_digit(#[trigger] s[i])) {
        Some(decimal_value(s) as int)
    } else {
        None
    }
}

/// The number that `s` stands for: decimal digits behind an optional `+`, or,
/// where `signed`, an optional `-`.
pub open spec fn parse_decimal(s: Seq<char>, signed: bool) -> Option<int> {
    if s.len() > 0 && s[0] == '+' {
        unsigned_decimal(s.skip(1))
    } else if signed && s.len() > 0 && s[0] == '-' {
        match unsigned_decimal(s.skip(1)) {
            Some(v) => Some(-v),
            None => None,
        }
    } else {
        unsigned_decimal(s)
    }
}

/// The value of the type `t` that the decimal text `s` stands for.
pub open spec fn decimal_of_type(s: Seq<char>, t: IntType) -> Result<int, ErrorView> {
    match parse_decimal(s, t.is_signed()) {
        None => Err(ErrorView::InvalidDigits),
        Some(v) => if t.holds(v) {
            Ok(v)
        } else {
            Err(ErrorView::OutOfRange)
        },
    }
}

/// The bytes of the decimal text `s` as a value of the type `t` in the order `order`.
pub open spec fn base10_bytes(s: Seq<char>, t: IntType, order: ByteOrder) -> Result<Seq<u8>, ErrorView> {
    match decimal_of_type(s, t) {
        Ok(v) => Ok(encode(t, order, v)),
        Err(e) => Err(e),
    }
}

/// Reads `digits` as a decimal number of the type `int_type`.
pub fn decimal_to_int(digits: &str, int_type: IntType) -> (r: Result<i128, Error>)
    ensures
        match decimal_of_type(digits@, int_type) {
            Ok(v) => r matches Ok(x) && x == v,
            Err(e) => r matches Err(x) && x@ == e,
        },
{
    let s: Vec<char> = chars_of(digits);
    let signed: bool = int_type.signed();
    let mut negative: bool = false;
    let mut start: usize = 0;
    if s.len() > 0 && s[0] == '+' {
        start = 1;
    } else if signed && s.len() > 0 && s[0] == '-' {
        start = 1;
        negative = true;
    }
    let ghost body: Seq<char> = s@.skip(start as int);
    assert(s@.skip(0) =~= s@);
    if start == s.len() {
        assert(unsigned_decimal(body) is None);
        return Err(Error::InvalidDigits);
    }
    let limit: u128 = 0x1_0000_0000_0000_0000;
    let mut acc: u128 = 0;
    let mut big: bool = false;
    let mut i: usize = start;
    assert(body.take(0) =~= Seq::<char>::empty());
    while i < s.len()
        invariant
            start <= i <= s.len(),
            body == s@.skip(start as int),
            body.len() > 0,
            parse_decimal(digits@, int_type.is_signed()) == match unsigned_decimal(body) {
                Some(v) => Some(
                    if negative {
                        -v
                    } else {
                        v
                    },
                ),
                None => None,
            },
            limit == 0x1_0000_0000_0000_0000,
            forall|k: int| 0 <= k < i - start ==> is_digit(#[trigger] body[k]),
            !big ==> acc == decimal_value(body.take(i - start)) && acc <= limit,
            big ==> decimal_value(body.take(i - start)) > limit,
        decreases s.len() - i,
    {
        let c: char = s[i];
        if !('0' <= c && c <= '9') {
            assert(!is_digit(body[i - start]));
            assert(unsigned_decimal(body) is None);
            return Err(Error::InvalidDigits);
        }
        let d: u128 = (c as u32 - '0' as u32) as u128;
        assert(body.take(i - start + 1).drop_last() =~= body.take(i - start));
        assert(body.take(i - start + 1).last() == c);
        if !big {
            acc = acc * 10 + d;
            if acc > limit {
                big = true;
            }
        }
        i += 1;
    }
    assert(body.take(i - start) =~= body);
    proof {
        lemma_pow256_bounds(int_type.width());
        broadcast use layout_of_primitives;

    }
    if big {
        return Err(Error::OutOfRange);
    }
    let v: i128 = if negative {
        -(acc as i128)
    } else {
        acc as i128
    };
    if int_type.fits(v) {
        Ok(v)
    } else {
        Err(Error::OutOfRange)
    }
}

/// `s` without its trailing `tag`s and the underscores before them.
pub open spec fn without_tag(s: Seq<char>, tag: Seq<char>) -> Seq<char> {
    trim_end_char(trim_end_pattern(s, tag), '_')
}

/// The byte order that the end of a type suffix names, if it names one.
pub open spec fn suffix_endianness(s: Seq<char>) -> Option<Endianness> {
    if ends_with(s, "le"@) {
        Some(Endianness::Little)
    } else if ends_with(s, "be"@) {
        Some(Endianness::Big)
    } else if ends_with(s, "ne"@) {
        Some(Endianness::Native)
    } else {
        None
    }
}

/// What is left of a type suffix without the byte order at its end.
pub open spec fn suffix_int_part(s: Seq<char>) -> Seq<char> {
    if ends_with(s, "le"@) {
        without_tag(s, "le"@)
    } else if ends_with(s, "be"@) {
        without_tag(s, "be"@)
    } else if ends_with(s, "ne"@) {
        without_tag(s, "ne"@)
    } else {
        s
    }
}

/// The integer type that a suffix names.
pub open spec fn suffix_int_type(s: Seq<char>) -> Option<IntType> {
    if s == "u8"@ {
        Some(IntType::U8)
    } else if s == "u16"@ {
        Some(IntType::U16)
    } else if s == "u24"@ {
        Some(IntType::U24)
    } else if s == "u32"@ {
        Some(IntType::U32)
    } else if s == "u64"@ {
        Some(IntType::U64)
    } else if s == "usize"@ {
        Some(IntType::USize)
    } else if s == "i8"@ {
        Some(IntType::I8)
    } else if s == "i16"@ {
        Some(IntType::I16)
    } else if s == "i24"@ {
        Some(IntType::I24)
    } else if s == "i32"@ {
        Some(IntType::I32)
    } else if s == "i64"@ {
        Some(IntType::I64)
    } else if s == "isize"@ {
        Some(IntType::ISize)
    } else {
        None
    }
}

/// Where `suffix` ends with `to_consume`, takes every trailing `to_consume`
/// and the underscores before them off `suffix`.
fn consume_suffix<'a>(suffix: &mut &'a str, to_consume: &str) -> (r: bool)
    ensures
        r == ends_with((*old(suffix))@, to_consume@),
        r ==> (*final(suffix))@ == without_tag((*old(suffix))@, to_consume@),
        !r ==> (*final(suffix))@ == (*old(suffix))@,
{
    let s: Vec<char> = chars_of(*suffix);
    let pat: Vec<char> = chars_of(to_consume);
    assert(s@.take(s.len() as int) =~= s@);
    if prefix_ends_with(&s, s.len(), &pat) {
        let n: usize = trimmed_end_pattern_len(&s, s.len(), &pat);
        let m: usize = trimmed_end_char_len(&s, n, '_');
        assert(s@.subrange(0, m as int) =~= s@.take(m as int));
        *suffix = (*suffix).substring_char(0, m);
        true
    } else {
        false
    }
}

impl Endianness {
    /// Reads a byte order off the end of a type suffix, and takes it and the
    /// underscores before it off the suffix.
    pub fn parse_from_suffix<'a>(suffix: &mut &'a str) -> (r: Option<Self>)
        ensures
            r == suffix_endianness((*old(suffix))@),
            (*final(suffix))@ == suffix_int_part((*old(suffix))@),
    {
        if consume_suffix(suffix, "le") {
            Some(Endianness::Little)
        } else if consume_suffix(suffix, "be") {
            Some(Endianness::Big)
        } else if consume_suffix(suffix, "ne") {
            Some(Endianness::Native)
        } else {
            None
        }
    }

    /// The bytes of `number` as a value of `int_type`, in this order; `native`
    /// is the order of the machine.
    pub fn to_bytes(self, native: ByteOrder, int_type: IntType, number: i128) -> (r: Vec<u8>)
        requires
            int_type.holds(number as int),
        ensures
            r@ == encode(int_type, self.resolved(native), number as int),
    {
        self.resolve(native).to_bytes(int_type, number)
    }
}

impl IntType {
    pub fn from_suffix(suffix: &str) -> (r: Option<Self>)
        ensures
            r == suffix_int_type(suffix@),
    {
        let s: Vec<char> = chars_of(suffix);
        if chars_eq(&s, &chars_of("u8")) {
            Some(IntType::U8)
        } else if chars_eq(&s, &chars_of("u16")) {
            Some(IntType::U16)
        } else if chars_eq(&s, &chars_of("u24")) {
            Some(IntType::U24)
        } else if chars_eq(&s, &chars_of("u32")) {
            Some(IntType::U32)
        } else if chars_eq(&s, &chars_of("u64")) {
            Some(IntType::U64)
        } else if chars_eq(&s, &chars_of("usize")) {
            Some(IntType::USize)
        } else if chars_eq(&s, &chars_of("i8")) {
            Some(IntType::I8)
        } else if chars_eq(&s, &chars_of("i16")) {
            Some(IntType::I16)
        } else if chars_eq(&s, &chars_of("i24")) {
            Some(IntType::I24)
        } else if chars_eq(&s, &chars_of("i32")) {
            Some(IntType::I32)
        } else if chars_eq(&s, &chars_of("i64")) {
            Some(IntType::I64)
        } else if chars_eq(&s, &chars_of("isize")) {
            Some(IntType::ISize)
        } else {
            None
        }
    }

    /// Writes `n` as a value of this type over the first bytes of `dest`;
    /// `native` is the byte order of the machine.
    pub fn write_bytes_from_bigint(
        self,
        n: i128,
        endianness: Endianness,
        native: ByteOrder,
        dest: &mut [u8],
    ) -> (r: Result<(), Error>)
        requires
            old(dest)@.len() >= self.width(),
        ensures
            self.holds(n as int) ==> r is Ok && final(dest)@ == encode(
                self,
                endianness.resolved(native),
                n as int,
            ) + old(dest)@.skip(self.width() as int),
            !self.holds(n as int) ==> {
                &&& r == Err::<(), Error>(Error::OutOfRange)
                &&& final(dest)@ == old(dest)@
            },
    {
        if !self.fits(n) {
            return Err(Error::OutOfRange);
        }
        let bytes: Vec<u8> = endianness.to_bytes(native, self, n);
        let mut i: usize = 0;
        while i < bytes.len()
            invariant
                i <= bytes.len(),
                bytes.len() <= dest@.len(),
                dest@.len() == old(dest)@.len(),
                forall|k: int| 0 <= k < i ==> dest@[k] == bytes@[k],
                forall|k: int| i <= k < dest@.len() ==> dest@[k] == old(dest)@[k],
            decreases bytes.len() - i,
        {
            dest[i] = bytes[i];
            i += 1;
        }
        assert(dest@ =~= bytes@ + old(dest)@.skip(self.width() as int));
        Ok(())
    }
}

/// The bytes of the decimal text `digits` as a value of `int_type`; `native`
/// is the byte order of the machine.
pub fn base10_digits_to_bytes(
    digits: &str,
    int_type: IntType,
    endianness: Endianness,
    native: ByteOrder,
) -> (r: Result<Vec<u8>, Error>)
    ensures
        outcome(r) == base10_bytes(digits@, int_type, endianness.resolved(native)),
{
    match decimal_to_int(digits, int_type) {
        Ok(value) => Ok(endianness.to_bytes(native, int_type, value)),
        Err(e) => Err(e),
    }
}

/// The byte order in which the two bytes `probe` hold the number 1: the
/// little-endian one where the 1 stands first, the big-endian one else.
pub open spec fn order_of_one(probe: Seq<u8>) -> ByteOrder {
    if probe == le_bytes(1, 2) {
        ByteOrder::Little
    } else {
        ByteOrder::Big
    }
}

/// The byte order in which the two bytes `probe` hold the number 1. Where
/// `probe` is the number 1 as a machine wrote it, this is the byte order of
/// that machine.
pub fn byte_order_of(probe: [u8; 2]) -> (r: ByteOrder)
    ensures
        r == order_of_one(probe@),
        probe@ == le_bytes(1, 2) || probe@ == be_bytes(1, 2) ==> probe@ == encode(IntType::U16, r, 1),
{
    proof {
        lemma_pow256_bounds(1);
        assert(pow256(0) == 1);
        assert(byte_at(1, 0) == 1);
        assert(byte_at(1, 1) == 0);
        assert(le_bytes(1, 2) =~= seq![1u8, 0u8]);
        assert(be_bytes(1, 2) =~= seq![0u8, 1u8]);
        assert(wrapped(1, 2) == 1);
        lemma_pow256_bounds(2);
    }
    if probe[0] == 1 && probe[1] == 0 {
        assert(probe@ =~= seq![1u8, 0u8]);
        ByteOrder::Little
    } else {
        ByteOrder::Big
    }
}

/// `num::traits::ToBytes::to_ne_bytes` on a `u16`: the two bytes of `value` in
/// the byte order of the machine, which is one of the two orders.
#[verifier::external_body]
fn native_bytes(value: u16) -> (r: [u8; 2])
    ensures
        r@ == le_bytes(value as nat, 2) || r@ == be_bytes(value as nat, 2),
{
    num::traits::ToBytes::to_ne_bytes(&value)
}

/// The byte order of the machine that this runs on: the one in which the
/// machine writes the number 1, as [`byte_order_of`] tells it. Which of the
/// two it is, the machine decides.
pub fn native_byte_order() -> ByteOrder {
    byte_order_of(native_bytes(1))
}

/// A value that is no 24-bit integer.
#[derive(Debug, Clone, Copy, PartialEq, Eq)]
pub struct InvalidU24Error;

impl InvalidU24Error {
    /// What went wrong, in words.
    pub fn message(&self) -> (r: String)
        ensures
            r@ == "Value out of range for u24 (must be 0..=16777215)"@,
    {
        "Value out of range for u24 (must be 0..=16777215)".to_owned()
    }
}

/// An unsigned 24-bit integer.
pub struct U24(u32);

impl U24 {
    #[verifier::type_invariant]
    spec fn in_range(self) -> bool {
        self.0 <= 0xFF_FFFF
    }

    /// The number that this is.
    pub closed spec fn value(self) -> int {
        self.0 as int
    }

    pub fn new(value: u32) -> (r: Result<Self, InvalidU24Error>)
        ensures
            value <= 0xFF_FFFF ==> (r matches Ok(u) && u.value() == value),
            value > 0xFF_FFFF ==> r is Err,
    {
        if value > 0xFF_FFFF {
            return Err(InvalidU24Error);
        }
        Ok(U24(value))
    }

    pub fn get(&self) -> (r: u32)
        ensures
            r == self.value(),
            IntType::U24.holds(r as int),
    {
        proof {
            use_type_invariant(self);
            lemma_pow256_bounds(3);
        }
        self.0
    }

    /// Reads decimal text as an unsigned 24-bit integer.
    pub fn from_str(s: &str) -> (r: Result<Self, InvalidU24Error>)
        ensures
            match decimal_of_type(s@, IntType::U24) {
                Ok(v) => r matches Ok(u) && u.value() == v,
                Err(_) => r is Err,
            },
    {
        match decimal_to_int(s, IntType::U24) {
            Ok(v) => {
                proof {
                    lemma_pow256_bounds(3);
                }
                U24::new(v as u32)
            },
            Err(_) => Err(InvalidU24Error),
        }
    }

    /// `value` as an unsigned 24-bit integer, if it is one.
    pub fn try_from(value: i128) -> (r: Result<Self, InvalidU24Error>)
        ensures
            IntType::U24.holds(value as int) ==> (r matches Ok(u) && u.value() == value),
            !IntType::U24.holds(value as int) ==> r is Err,
    {
        proof {
            lemma_pow256_bounds(3);
        }
        if 0 <= value && value <= 0xFF_FFFF {
            U24::new(value as u32)
        } else {
            Err(InvalidU24Error)
        }
    }

    pub fn to_be_bytes(&self) -> (r: [u8; 3])
        ensures
            r@ == encode(IntType::U24, ByteOrder::Big, self.value()),
    {
        let b: Vec<u8> = ByteOrder::Big.to_bytes(IntType::U24, self.get() as i128);
        let r: [u8; 3] = [b[0], b[1], b[2]];
        assert(r@ =~= b@);
        r
    }

    pub fn to_le_bytes(&self) -> (r: [u8; 3])
        ensures
            r@ == encode(IntType::U24, ByteOrder::Little, self.value()),
    {
        let b: Vec<u8> = ByteOrder::Little.to_bytes(IntType::U24, self.get() as i128);
        let r: [u8; 3] = [b[0], b[1], b[2]];
        assert(r@ =~= b@);
        r
    }
}

/// A signed 24-bit integer.
pub struct I24(i32);

impl I24 {
    #[verifier::type_invariant]
    spec fn in_range(self) -> bool {
        -0x80_0000 <= self.0 <= 0x7F_FFFF
    }

    /// The number that this is.
    pub closed spec fn value(self) -> int {
        self.0 as int
    }

    pub fn new(value: i32) -> (r: Result<Self, InvalidU24Error>)
        ensures
            -0x80_0000 <= value <= 0x7F_FFFF ==> (r matches Ok(u) && u.value() == value),
            !(-0x80_0000 <= value <= 0x7F_FFFF) ==> r is Err,
    {
        if value < -0x80_0000 || value > 0x7F_FFFF {
            return Err(InvalidU24Error);
        }
        Ok(I24(value))
    }

    pub fn get(&self) -> (r: i32)
        ensures
            r == self.value(),
            IntType::I24.holds(r as int),
    {
        proof {
            use_type_invariant(self);
            lemma_pow256_bounds(3);
        }
        self.0
    }

    /// Reads decimal text as a signed 24-bit integer.
    pub fn from_str(s: &str) -> (r: Result<Self, InvalidU24Error>)
        ensures
            match decimal_of_type(s@, IntType::I24) {
                Ok(v) => r matches Ok(u) && u.value() == v,
                Err(_) => r is Err,
            },
    {
        match decimal_to_int(s, IntType::I24) {
            Ok(v) => {
                proof {
                    lemma_pow256_bounds(3);
                }
                I24::new(v as i32)
            },
            Err(_) => Err(InvalidU24Error),
        }
    }

    /// `value` as a signed 24-bit integer, if it is one.
    pub fn try_from(value: i128) -> (r: Result<Self, InvalidU24Error>)
        ensures
            IntType::I24.holds(value as int) ==> (r matches Ok(u) && u.value() == value),
            !IntType::I24.holds(value as int) ==> r is Err,
    {
        proof {
            lemma_pow256_bounds(3);
        }
        if -0x80_0000 <= value && value <= 0x7F_FFFF {
            I24::new(value as i32)
        } else {
            Err(InvalidU24Error)
        }
    }

    pub fn to_be_bytes(&self) -> (r: [u8; 3])
        ensures
            r@ == encode(IntType::I24, ByteOrder::Big, self.value()),
    {
        let b: Vec<u8> = ByteOrder::Big.to_bytes(IntType::I24, self.get() as i128);
        let r: [u8; 3] = [b[0], b[1], b[2]];
        assert(r@ =~= b@);
        r
    }

    pub fn to_le_bytes(&self) -> (r: [u8; 3])
        ensures
            r@ == encode(IntType::I24, ByteOrder::Little, self.value()),
    {
        let b: Vec<u8> = ByteOrder::Little.to_bytes(IntType::I24, self.get() as i128);
        let r: [u8; 3] = [b[0], b[1], b[2]];
        assert(r@ =~= b@);
        r
    }
}

} // verus!
