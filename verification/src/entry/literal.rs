//! Literals: integers with a type suffix, digit literals that stand for raw
//! bytes, single bytes, byte strings and C strings.

use vstd::prelude::*;
use crate::error::Error;
use crate::error::ErrorView;
use crate::state::EntryState;
use crate::state::Outcome;
use crate::state::StateOperation;
use crate::state::StateView;
use crate::state::lemma_appended_extends;
use crate::state::lemma_extends_reflexive;
use crate::text::ascii_lower;
use crate::text::ascii_lowercase;
use crate::text::chars_of;
use crate::text::starts_with;
use crate::text::suffix_starts_with;
use crate::text::to_ascii_lower;
use crate::text::trim_start_pattern;
use crate::text::trimmed_start_pattern_at;
use crate::text::without_char;
use crate::to_bytes::ByteOrder;
use crate::to_bytes::Endianness;
use crate::to_bytes::IntType;
use crate::to_bytes::base10_bytes;
use crate::to_bytes::base10_digits_to_bytes;
use crate::to_bytes::outcome;
use crate::to_bytes::suffix_endianness;
use crate::to_bytes::suffix_int_part;
use crate::to_bytes::suffix_int_type;
use crate::token::LitInt;
use crate::token::LitIntView;
use crate::token::Site;

verus! {

/// `base` to the power `n`.
pub open spec fn power(base: nat, n: nat) -> nat
    decreases n,
{
    if n == 0 {
        1
    } else {
        base * power(base, (n - 1) as nat)
    }
}

/// The base of the digits of which `digits_per_byte` make up one byte.
pub open spec fn radix_of(digits_per_byte: nat) -> nat {
    if digits_per_byte == 2 {
        16
    } else if digits_per_byte == 4 {
        4
    } else {
        2
    }
}

/// The number that the digit `c` stands for, whatever the base.
pub open spec fn radix_digit(c: char) -> nat {
    if '0' <= c && c <= '9' {
        (c as u32 - '0' as u32) as nat
    } else if 'a' <= c && c <= 'f' {
        (c as u32 - 'a' as u32 + 10) as nat
    } else {
        (c as u32 - 'A' as u32 + 10) as nat
    }
}

/// `c` is a digit of the base `radix`, which is at most 16.
pub open spec fn is_radix_digit(c: char, radix: nat) -> bool {
    (('0' <= c && c <= '9') || ('a' <= c && c <= 'f') || ('A' <= c && c <= 'F')) && radix_digit(c)
        < radix
}

/// The number that the digits `s` stand for in the base `radix`.
pub open spec fn radix_value(s: Seq<char>, radix: nat) -> nat
    decreases s.len(),
{
    if s.len() == 0 {
        0
    } else {
        radix * radix_value(s.drop_last(), radix) + radix_digit(s.last())
    }
}

/// The bytes that the digits `s` stand for, `digits_per_byte` digits to the
/// byte and the most significant digits first.
pub open spec fn digit_bytes(site: Site, s: Seq<char>, digits_per_byte: nat) -> Result<
    Seq<u8>,
    ErrorView,
> {
    let radix = radix_of(digits_per_byte);
    if s.len() % digits_per_byte != 0 {
        Err(ErrorView::MalformedDigitLiteral { site })
    } else if exists|i: int| 0 <= i < s.len() && !is_radix_digit(#[trigger] s[i], radix) {
        Err(ErrorView::MalformedDigitLiteral { site })
    } else {
        Ok(
            Seq::new(
                s.len() / digits_per_byte,
                |k: int|
                    radix_value(s.subrange(k * digits_per_byte, (k + 1) * digits_per_byte), radix) as u8,
            ),
        )
    }
}

/// The bytes that an integer literal stands for, where `default_endianness`
/// is the mode in force and `native` the byte order of the machine.
pub open spec fn int_literal_bytes(default_endianness: Endianness, native: ByteOrder, lit: LitIntView) -> Result<
    Seq<u8>,
    ErrorView,
> {
    if lit.suffix.len() == 0 {
        let lower = ascii_lowercase(lit.repr);
        if starts_with(lower, "0x"@) {
            digit_bytes(lit.site, without_char(trim_start_pattern(lower, "0x"@), '_'), 2)
        } else if starts_with(lower, "0b"@) {
            digit_bytes(lit.site, without_char(trim_start_pattern(lower, "0b"@), '_'), 8)
        } else {
            Err(ErrorView::MissingSuffix { site: lit.site })
        }
    } else {
        let endianness = match suffix_endianness(lit.suffix) {
            Some(e) => e,
            None => default_endianness,
        };
        match suffix_int_type(suffix_int_part(lit.suffix)) {
            Some(t) => base10_bytes(lit.digits, t, endianness.resolved(native)),
            None => Err(ErrorView::InvalidSuffix { site: lit.site }),
        }
    }
}

proof fn lemma_radix_power(digits_per_byte: nat)
    requires
        digits_per_byte == 2 || digits_per_byte == 4 || digits_per_byte == 8,
    ensures
        power(radix_of(digits_per_byte), digits_per_byte) == 256,
{
    reveal_with_fuel(power, 9);
}

proof fn lemma_power_step(base: nat, n: nat)
    ensures
        power(base, n + 1) == base * power(base, n),
{
}

/// The digit that `c` is in the base `radix`, if it is one.
fn digit_of(c: char, radix: u32) -> (r: Option<u32>)
    requires
        radix <= 16,
    ensures
        match r {
            Some(d) => is_radix_digit(c, radix as nat) && d == radix_digit(c),
            None => !is_radix_digit(c, radix as nat),
        },
{
    let d: u32 = if '0' <= c && c <= '9' {
        c as u32 - '0' as u32
    } else if 'a' <= c && c <= 'f' {
        c as u32 - 'a' as u32 + 10
    } else if 'A' <= c && c <= 'F' {
        c as u32 - 'A' as u32 + 10
    } else {
        return None;
    };
    if d < radix {
        Some(d)
    } else {
        None
    }
}

/// The bytes that the digits `digits` stand for; see [`parse_byte_literal`].
fn parse_byte_digits(err_context: Site, digits: &Vec<char>, digits_per_byte: usize) -> (r: Result<
    Vec<u8>,
    Error,
>)
    requires
        digits_per_byte == 2 || digits_per_byte == 4 || digits_per_byte == 8,
    ensures
        outcome(r) == digit_bytes(err_context, digits@, digits_per_byte as nat),
{
    let radix: u32 = if digits_per_byte == 2 {
        16
    } else if digits_per_byte == 4 {
        4
    } else {
        2
    };
    let ghost s = digits@;
    let ghost per = digits_per_byte as nat;
    if digits.len() % digits_per_byte != 0 {
        return Err(Error::MalformedDigitLiteral { site: err_context });
    }
    let count: usize = digits.len() / digits_per_byte;
    let mut out: Vec<u8> = Vec::new();
    let mut k: usize = 0;
    while k < count
        invariant
            s == digits@,
            per == digits_per_byte,
            digits_per_byte == 2 || digits_per_byte == 4 || digits_per_byte == 8,
            radix == radix_of(per),
            count == digits.len() / digits_per_byte,
            digits.len() % digits_per_byte == 0,
            k <= count,
            out@.len() == k,
            forall|i: int| 0 <= i < k * per ==> is_radix_digit(#[trigger] s[i], radix as nat),
            forall|j: int|
                0 <= j < k ==> out@[j] == radix_value(s.subrange(j * per, (j + 1) * per), radix as nat) as u8,
        decreases count - k,
    {
        let base: usize = k * digits_per_byte;
        assert(base + digits_per_byte <= digits.len()) by (nonlinear_arith)
            requires
                base == k * digits_per_byte,
                k < count,
                count == digits.len() / digits_per_byte,
                digits_per_byte > 0,
        ;
        let ghost chunk = s.subrange(base as int, base + per);
        let mut acc: u32 = 0;
        let mut j: usize = 0;
        assert(chunk.take(0) =~= Seq::<char>::empty());
        while j < digits_per_byte
            invariant
                s == digits@,
                per == digits_per_byte,
                digits_per_byte == 2 || digits_per_byte == 4 || digits_per_byte == 8,
                radix == radix_of(per),
                base + digits_per_byte <= digits.len(),
                base == k * digits_per_byte,
                chunk == s.subrange(base as int, base + per),
                j <= digits_per_byte,
                acc == radix_value(chunk.take(j as int), radix as nat),
                acc < power(radix as nat, j as nat),
                power(radix as nat, j as nat) <= 256,
                forall|i: int| 0 <= i < base + j ==> is_radix_digit(#[trigger] s[i], radix as nat),
            decreases digits_per_byte - j,
        {
            let c: char = digits[base + j];
            match digit_of(c, radix) {
                None => {
                    assert(!is_radix_digit(s[base + j], radix as nat));
                    return Err(Error::MalformedDigitLiteral { site: err_context });
                },
                Some(d) => {
                    proof {
                        lemma_power_step(radix as nat, j as nat);
                        lemma_radix_power(per);
                        lemma_power_monotone(radix as nat, (j + 1) as nat, per);
                        assert(chunk.take(j + 1).drop_last() =~= chunk.take(j as int));
                        assert(chunk.take(j + 1).last() == c);
                        assert(acc * radix + d < radix * power(radix as nat, j as nat))
                            by (nonlinear_arith)
                            requires
                                acc < power(radix as nat, j as nat),
                                d < radix,
                        ;
                    }
                    acc = acc * radix + d;
                    j += 1;
                },
            }
        }
        proof {
            lemma_radix_power(per);
            assert(chunk.take(per as int) =~= chunk);
            assert((k + 1) * per == base + per) by (nonlinear_arith)
                requires
                    base == k * per,
            ;
        }
        out.push(acc as u8);
        k += 1;
    }
    proof {
        assert(count * per == s.len()) by (nonlinear_arith)
            requires
                count == s.len() / per,
                s.len() % per == 0,
                per > 0,
        ;
        assert(out@ =~= digit_bytes(err_context, s, per)->Ok_0);
    }
    Ok(out)
}

proof fn lemma_power_monotone(base: nat, a: nat, b: nat)
    requires
        base >= 1,
        a <= b,
    ensures
        power(base, a) <= power(base, b),
    decreases b,
{
    if a < b {
        lemma_power_monotone(base, a, (b - 1) as nat);
        assert(power(base, (b - 1) as nat) <= base * power(base, (b - 1) as nat))
            by (nonlinear_arith)
            requires
                base >= 1,
        ;
    }
}

/// Turns the digits of a hex or binary literal into bytes, `digits_per_byte`
/// digits to the byte and the most significant digits first. The digits are
/// those of the base that fills a byte with that many of them: 16 for two,
/// 4 for four, 2 for eight.
pub fn parse_byte_literal(err_context: Site, digits: &str, digits_per_byte: usize) -> (r: Result<
    Vec<u8>,
    Error,
>)
    requires
        digits_per_byte == 2 || digits_per_byte == 4 || digits_per_byte == 8,
    ensures
        outcome(r) == digit_bytes(err_context, digits@, digits_per_byte as nat),
{
    let s: Vec<char> = chars_of(digits);
    parse_byte_digits(err_context, &s, digits_per_byte)
}

/// The characters of `s` from `from` on, without the underscores among them.
fn digits_without_underscores(s: &Vec<char>, from: usize) -> (r: Vec<char>)
    requires
        from <= s.len(),
    ensures
        r@ == without_char(s@.skip(from as int), '_'),
{
    let mut out: Vec<char> = Vec::new();
    let mut i: usize = from;
    let ghost tail = s@.skip(from as int);
    assert(tail.take(0) =~= Seq::<char>::empty());
    while i < s.len()
        invariant
            from <= i <= s.len(),
            tail == s@.skip(from as int),
            out@ == without_char(tail.take(i - from), '_'),
        decreases s.len() - i,
    {
        assert(tail.take(i - from + 1).drop_last() =~= tail.take(i - from));
        assert(tail.take(i - from + 1).last() == s@[i as int]);
        if s[i] != '_' {
            out.push(s[i]);
        }
        i += 1;
    }
    assert(tail.take(i - from) =~= tail);
    out
}

/// The bytes that an integer literal stands for. Without a suffix it is a
/// hex or binary literal whose digits are the bytes themselves; with one, the
/// suffix gives the type and, at its end, the byte order, for which
/// `default_endianness` stands in where the suffix names none. `native` is the
/// byte order of the machine.
pub fn parse_int_literal(default_endianness: Endianness, native: ByteOrder, lit: &LitInt) -> (r: Result<
    Vec<u8>,
    Error,
>)
    ensures
        outcome(r) == int_literal_bytes(default_endianness, native, lit@),
{
    let mut suffix: &str = lit.suffix();
    if suffix.is_empty() {
        let repr: Vec<char> = chars_of(lit.repr());
        let mut lower: Vec<char> = Vec::new();
        let mut i: usize = 0;
        while i < repr.len()
            invariant
                i <= repr.len(),
                lower@.len() == i,
                forall|k: int| 0 <= k < i ==> lower@[k] == ascii_lower(repr@[k]),
            decreases repr.len() - i,
        {
            lower.push(to_ascii_lower(repr[i]));
            i += 1;
        }
        assert(lower@ =~= ascii_lowercase(lit@.repr));
        assert(lower@.skip(0) =~= lower@);
        let hex: Vec<char> = chars_of("0x");
        let bin: Vec<char> = chars_of("0b");
        if suffix_starts_with(&lower, 0, &hex) {
            let at: usize = trimmed_start_pattern_at(&lower, &hex);
            let digits: Vec<char> = digits_without_underscores(&lower, at);
            return parse_byte_digits(lit.site(), &digits, 2);
        } else if suffix_starts_with(&lower, 0, &bin) {
            let at: usize = trimmed_start_pattern_at(&lower, &bin);
            let digits: Vec<char> = digits_without_underscores(&lower, at);
            return parse_byte_digits(lit.site(), &digits, 8);
        } else {
            return Err(Error::MissingSuffix { site: lit.site() });
        }
    }
    let endianness: Endianness = match Endianness::parse_from_suffix(&mut suffix) {
        Some(e) => e,
        None => default_endianness,
    };
    match IntType::from_suffix(suffix) {
        Some(int_type) => base10_digits_to_bytes(lit.base10_digits(), int_type, endianness, native),
        None => Err(Error::InvalidSuffix { site: lit.site() }),
    }
}

/// An integer literal.
#[derive(Debug, Clone, PartialEq, Eq)]
pub struct IntLiteral {
    pub value: LitInt,
}

impl View for IntLiteral {
    type V = LitIntView;

    open spec fn view(&self) -> LitIntView {
        self.value@
    }
}

/// The mathematical form of a [`LiteralEntry`].
pub enum LiteralEntryView {
    Int(LitIntView),
    Byte(u8),
    ByteString(Seq<u8>),
    CString(Seq<u8>),
}

/// The state after a literal has been applied to `state`: its bytes stand
/// behind the buffer. An integer literal is written in the byte order in
/// force where it names none; a C string ends with a zero byte.
pub open spec fn literal_effect(literal: LiteralEntryView, state: StateView) -> Outcome {
    match literal {
        LiteralEntryView::Int(lit) => match int_literal_bytes(state.endian_mode, state.native, lit) {
            Ok(bytes) => Outcome { state: state.appended(bytes), result: Ok(()) },
            Err(e) => Outcome { state, result: Err(e) },
        },
        LiteralEntryView::Byte(value) => Outcome { state: state.appended(seq![value]), result: Ok(()) },
        LiteralEntryView::ByteString(value) => Outcome { state: state.appended(value), result: Ok(()) },
        LiteralEntryView::CString(value) => Outcome {
            state: state.appended(value + seq![0u8]),
            result: Ok(()),
        },
    }
}

impl StateOperation for IntLiteral {
    open spec fn effect(&self, state: StateView) -> Outcome {
        literal_effect(LiteralEntryView::Int(self@), state)
    }

    fn apply_to(&self, state: &mut EntryState) -> (r: Result<(), Error>) {
        match parse_int_literal(state.endian_mode(), state.native(), &self.value) {
            Ok(bytes) => {
                state.append_bytes(bytes.as_slice());
                Ok(())
            },
            Err(e) => Err(e),
        }
    }
}

/// A literal of one byte.
#[derive(Debug, Clone, PartialEq, Eq)]
pub struct ByteLiteral {
    pub value: u8,
}

impl View for ByteLiteral {
    type V = u8;

    open spec fn view(&self) -> u8 {
        self.value
    }
}

impl StateOperation for ByteLiteral {
    open spec fn effect(&self, state: StateView) -> Outcome {
        literal_effect(LiteralEntryView::Byte(self@), state)
    }

    fn apply_to(&self, state: &mut EntryState) -> (r: Result<(), Error>) {
        let byte: [u8; 1] = [self.value];
        assert(byte@ =~= seq![self.value]);
        state.append_bytes(byte.as_slice());
        Ok(())
    }
}

/// A literal of a string of bytes.
#[derive(Debug, Clone, PartialEq, Eq)]
pub struct ByteStringLiteral {
    pub value: Vec<u8>,
}

impl View for ByteStringLiteral {
    type V = Seq<u8>;

    open spec fn view(&self) -> Seq<u8> {
        self.value@
    }
}

impl StateOperation for ByteStringLiteral {
    open spec fn effect(&self, state: StateView) -> Outcome {
        literal_effect(LiteralEntryView::ByteString(self@), state)
    }

    fn apply_to(&self, state: &mut EntryState) -> (r: Result<(), Error>) {
        state.append_bytes(self.value.as_slice());
        Ok(())
    }
}

/// A literal of a C string: `value` holds its bytes without the zero byte
/// that ends it.
#[derive(Debug, Clone, PartialEq, Eq)]
pub struct CStringLiteral {
    pub value: Vec<u8>,
}

impl View for CStringLiteral {
    type V = Seq<u8>;

    open spec fn view(&self) -> Seq<u8> {
        self.value@
    }
}

impl StateOperation for CStringLiteral {
    open spec fn effect(&self, state: StateView) -> Outcome {
        literal_effect(LiteralEntryView::CString(self@), state)
    }

    fn apply_to(&self, state: &mut EntryState) -> (r: Result<(), Error>) {
        state.append_bytes(self.value.as_slice());
        let end: [u8; 1] = [0];
        assert(end@ =~= seq![0u8]);
        state.append_bytes(end.as_slice());
        assert(old(state)@.data + self.value@ + seq![0u8] =~= old(state)@.data + (self.value@
            + seq![0u8]));
        Ok(())
    }
}

/// A literal of any of the four kinds.
#[derive(Debug, Clone, PartialEq, Eq)]
pub enum LiteralEntry {
    Int(IntLiteral),
    Byte(ByteLiteral),
    ByteString(ByteStringLiteral),
    CString(CStringLiteral),
}

impl View for LiteralEntry {
    type V = LiteralEntryView;

    open spec fn view(&self) -> LiteralEntryView {
        match self {
            LiteralEntry::Int(int_lit) => LiteralEntryView::Int(int_lit@),
            LiteralEntry::Byte(byte_lit) => LiteralEntryView::Byte(byte_lit@),
            LiteralEntry::ByteString(byte_str_lit) => LiteralEntryView::ByteString(byte_str_lit@),
            LiteralEntry::CString(cstr_lit) => LiteralEntryView::CString(cstr_lit@),
        }
    }
}

impl StateOperation for LiteralEntry {
    open spec fn effect(&self, state: StateView) -> Outcome {
        literal_effect(self@, state)
    }

    fn apply_to(&self, state: &mut EntryState) -> (r: Result<(), Error>) {
        match self {
            LiteralEntry::Int(int_lit) => int_lit.apply_to(state),
            LiteralEntry::Byte(byte_lit) => byte_lit.apply_to(state),
            LiteralEntry::ByteString(byte_str_lit) => byte_str_lit.apply_to(state),
            LiteralEntry::CString(cstr_lit) => cstr_lit.apply_to(state),
        }
    }
}

/// A literal only puts bytes behind the buffer.
pub proof fn lemma_literal_follows(literal: LiteralEntryView, state: StateView)
    ensures
        literal_effect(literal, state).follows(state),
{
    lemma_extends_reflexive(state);
    match literal {
        LiteralEntryView::Int(lit) => {
            match int_literal_bytes(state.endian_mode, state.native, lit) {
                Ok(bytes) => lemma_appended_extends(state, bytes),
                Err(_) => {},
            }
        },
        LiteralEntryView::Byte(value) => lemma_appended_extends(state, seq![value]),
        LiteralEntryView::ByteString(value) => lemma_appended_extends(state, value),
        LiteralEntryView::CString(value) => lemma_appended_extends(state, value + seq![0u8]),
    }
}

} // verus!
