use datalit::error::Error;
use datalit::to_bytes::base10_digits_to_bytes;
use datalit::to_bytes::byte_order_of;
use datalit::to_bytes::decimal_to_int;
use datalit::to_bytes::native_byte_order;
use datalit::to_bytes::ByteOrder;
use datalit::to_bytes::Endianness;
use datalit::to_bytes::I24;
use datalit::to_bytes::IntType;
use datalit::to_bytes::InvalidU24Error;
use datalit::to_bytes::U24;

const ALL_TYPES: [IntType; 12] = [
    IntType::U8,
    IntType::U16,
    IntType::U24,
    IntType::U32,
    IntType::U64,
    IntType::USize,
    IntType::I8,
    IntType::I16,
    IntType::I24,
    IntType::I32,
    IntType::I64,
    IntType::ISize,
];

fn read_back(int_type: IntType, order: ByteOrder, bytes: &[u8]) -> i128 {
    let mut wide = [0u8; 16];
    let fill = if int_type.signed() && !bytes.is_empty() {
        let top = match order {
            ByteOrder::Little => bytes[bytes.len() - 1],
            ByteOrder::Big => bytes[0],
        };
        if top >= 0x80 {
            0xFF
        } else {
            0
        }
    } else {
        0
    };
    for slot in wide.iter_mut() {
        *slot = fill;
    }
    for (i, byte) in bytes.iter().enumerate() {
        let at = match order {
            ByteOrder::Little => i,
            ByteOrder::Big => bytes.len() - 1 - i,
        };
        wide[at] = *byte;
    }
    i128::from_le_bytes(wide)
}

#[test]
fn num_bytes_of_each_type() {
    let word = std::mem::size_of::<usize>();
    let expected = [1, 2, 3, 4, 8, word, 1, 2, 3, 4, 8, word];
    for (int_type, bytes) in ALL_TYPES.iter().zip(expected.iter()) {
        assert_eq!(int_type.num_bytes(), *bytes);
    }
}

#[test]
fn signed_types_are_the_i_types() {
    let expected = [
        false, false, false, false, false, false, true, true, true, true, true, true,
    ];
    for (int_type, signed) in ALL_TYPES.iter().zip(expected.iter()) {
        assert_eq!(int_type.signed(), *signed);
    }
}

#[test]
fn from_suffix_knows_the_twelve_types() {
    let names = [
        "u8", "u16", "u24", "u32", "u64", "usize", "i8", "i16", "i24", "i32", "i64", "isize",
    ];
    for (name, int_type) in names.iter().zip(ALL_TYPES.iter()) {
        assert_eq!(IntType::from_suffix(name), Some(*int_type));
    }
    assert_eq!(IntType::from_suffix(""), None);
    assert_eq!(IntType::from_suffix("u7"), None);
    assert_eq!(IntType::from_suffix("U8"), None);
    assert_eq!(IntType::from_suffix("u8 "), None);
    assert_eq!(IntType::from_suffix("u128"), None);
}

#[test]
fn parse_from_suffix_takes_the_tag_and_the_underscores() {
    let mut suffix = "u16_le";
    assert_eq!(Endianness::parse_from_suffix(&mut suffix), Some(Endianness::Little));
    assert_eq!(suffix, "u16");

    let mut suffix = "u16be";
    assert_eq!(Endianness::parse_from_suffix(&mut suffix), Some(Endianness::Big));
    assert_eq!(suffix, "u16");

    let mut suffix = "i32___ne";
    assert_eq!(Endianness::parse_from_suffix(&mut suffix), Some(Endianness::Native));
    assert_eq!(suffix, "i32");

    let mut suffix = "u16";
    assert_eq!(Endianness::parse_from_suffix(&mut suffix), None);
    assert_eq!(suffix, "u16");
}

#[test]
fn parse_from_suffix_takes_every_trailing_tag() {
    let mut suffix = "u16lele";
    assert_eq!(Endianness::parse_from_suffix(&mut suffix), Some(Endianness::Little));
    assert_eq!(suffix, "u16");

    let mut suffix = "le";
    assert_eq!(Endianness::parse_from_suffix(&mut suffix), Some(Endianness::Little));
    assert_eq!(suffix, "");

    let mut suffix = "u8_bele";
    assert_eq!(Endianness::parse_from_suffix(&mut suffix), Some(Endianness::Little));
    assert_eq!(suffix, "u8_be");
}

#[test]
fn resolve_keeps_an_order_and_replaces_native() {
    assert_eq!(Endianness::Little.resolve(ByteOrder::Big), ByteOrder::Little);
    assert_eq!(Endianness::Big.resolve(ByteOrder::Little), ByteOrder::Big);
    assert_eq!(Endianness::Native.resolve(ByteOrder::Big), ByteOrder::Big);
    assert_eq!(Endianness::Native.resolve(ByteOrder::Little), ByteOrder::Little);
}

#[test]
fn native_byte_order_is_that_of_the_machine() {
    let little = 1u16.to_ne_bytes()[0] == 1;
    assert_eq!(native_byte_order() == ByteOrder::Little, little);
    assert_eq!(native_byte_order() == ByteOrder::Big, !little);
}

#[test]
fn byte_order_of_the_number_one() {
    assert_eq!(byte_order_of([1, 0]), ByteOrder::Little);
    assert_eq!(byte_order_of([0, 1]), ByteOrder::Big);
    assert_eq!(byte_order_of(1u16.to_le_bytes()), ByteOrder::Little);
    assert_eq!(byte_order_of(1u16.to_be_bytes()), ByteOrder::Big);
    assert_eq!(byte_order_of(1u16.to_ne_bytes()), native_byte_order());
    assert_eq!(
        ByteOrder::Little.to_bytes(IntType::U16, 1),
        1u16.to_le_bytes().to_vec()
    );
    assert_eq!(byte_order_of([1, 1]), ByteOrder::Big);
    assert_eq!(byte_order_of([0, 0]), ByteOrder::Big);
}

#[test]
fn to_bytes_in_both_orders() {
    assert_eq!(ByteOrder::Little.to_bytes(IntType::U16, 0x1234), vec![0x34, 0x12]);
    assert_eq!(ByteOrder::Big.to_bytes(IntType::U16, 0x1234), vec![0x12, 0x34]);
    assert_eq!(
        ByteOrder::Little.to_bytes(IntType::U32, 0x1234_5678),
        vec![0x78, 0x56, 0x34, 0x12]
    );
    assert_eq!(
        ByteOrder::Big.to_bytes(IntType::U32, 0x1234_5678),
        vec![0x12, 0x34, 0x56, 0x78]
    );
    assert_eq!(
        ByteOrder::Big.to_bytes(IntType::U64, 0x0102_0304_0506_0708),
        vec![1, 2, 3, 4, 5, 6, 7, 8]
    );
    assert_eq!(ByteOrder::Big.to_bytes(IntType::U8, 0xAB), vec![0xAB]);
}

#[test]
fn to_bytes_of_negative_values_is_twos_complement() {
    assert_eq!(ByteOrder::Little.to_bytes(IntType::I8, -1), vec![0xFF]);
    assert_eq!(ByteOrder::Little.to_bytes(IntType::I8, -128), vec![0x80]);
    assert_eq!(ByteOrder::Little.to_bytes(IntType::I16, -2), vec![0xFE, 0xFF]);
    assert_eq!(ByteOrder::Big.to_bytes(IntType::I16, -2), vec![0xFF, 0xFE]);
    assert_eq!(ByteOrder::Big.to_bytes(IntType::I24, -1), vec![0xFF, 0xFF, 0xFF]);
    assert_eq!(
        ByteOrder::Little.to_bytes(IntType::I24, -8_388_608),
        vec![0x00, 0x00, 0x80]
    );
    assert_eq!(
        ByteOrder::Big.to_bytes(IntType::I64, i64::MIN as i128),
        vec![0x80, 0, 0, 0, 0, 0, 0, 0]
    );
}

#[test]
fn endianness_to_bytes_follows_the_native_order() {
    assert_eq!(
        Endianness::Native.to_bytes(ByteOrder::Big, IntType::U16, 1),
        vec![0, 1]
    );
    assert_eq!(
        Endianness::Native.to_bytes(ByteOrder::Little, IntType::U16, 1),
        vec![1, 0]
    );
    assert_eq!(
        Endianness::Little.to_bytes(ByteOrder::Big, IntType::U16, 1),
        vec![1, 0]
    );
    assert_eq!(
        Endianness::Big.to_bytes(ByteOrder::Little, IntType::U16, 1),
        vec![0, 1]
    );
}

#[test]
fn fits_at_the_ends_of_each_range() {
    assert!(IntType::U8.fits(0));
    assert!(IntType::U8.fits(255));
    assert!(!IntType::U8.fits(256));
    assert!(!IntType::U8.fits(-1));
    assert!(IntType::I8.fits(-128));
    assert!(IntType::I8.fits(127));
    assert!(!IntType::I8.fits(128));
    assert!(!IntType::I8.fits(-129));
    assert!(IntType::U24.fits(16_777_215));
    assert!(!IntType::U24.fits(16_777_216));
    assert!(IntType::I24.fits(-8_388_608));
    assert!(IntType::I24.fits(8_388_607));
    assert!(!IntType::I24.fits(8_388_608));
    assert!(!IntType::I24.fits(-8_388_609));
    assert!(IntType::U64.fits(u64::MAX as i128));
    assert!(!IntType::U64.fits(u64::MAX as i128 + 1));
    assert!(IntType::I64.fits(i64::MIN as i128));
    assert!(!IntType::I64.fits(i64::MIN as i128 - 1));
    assert!(IntType::USize.fits(usize::MAX as i128));
    assert!(!IntType::USize.fits(usize::MAX as i128 + 1));
    assert!(IntType::ISize.fits(isize::MIN as i128));
    assert!(!IntType::ISize.fits(isize::MAX as i128 + 1));
}

#[test]
fn encode_then_decode_gives_the_value_back() {
    let values: [i128; 16] = [
        0,
        1,
        -1,
        127,
        -128,
        255,
        256,
        -32_768,
        65_535,
        8_388_607,
        -8_388_608,
        16_777_215,
        i32::MIN as i128,
        u32::MAX as i128,
        i64::MIN as i128,
        u64::MAX as i128,
    ];
    let mut count = 0;
    for int_type in ALL_TYPES.iter() {
        for order in [ByteOrder::Little, ByteOrder::Big].iter() {
            for value in values.iter() {
                if int_type.fits(*value) {
                    let bytes = order.to_bytes(*int_type, *value);
                    assert_eq!(bytes.len(), int_type.num_bytes());
                    assert_eq!(read_back(*int_type, *order, &bytes), *value);
                    count += 1;
                }
            }
        }
    }
    assert!(count > 100);
}

#[test]
fn encode_agrees_with_the_machine_integers() {
    assert_eq!(
        ByteOrder::Little.to_bytes(IntType::U32, 0xDEAD_BEEF),
        0xDEAD_BEEFu32.to_le_bytes().to_vec()
    );
    assert_eq!(
        ByteOrder::Big.to_bytes(IntType::I32, -123_456),
        (-123_456i32).to_be_bytes().to_vec()
    );
    assert_eq!(
        ByteOrder::Little.to_bytes(IntType::I64, -9_000_000_000),
        (-9_000_000_000i64).to_le_bytes().to_vec()
    );
    assert_eq!(
        ByteOrder::Big.to_bytes(IntType::USize, 77),
        77usize.to_be_bytes().to_vec()
    );
    assert_eq!(
        ByteOrder::Little.to_bytes(IntType::ISize, -77),
        (-77isize).to_le_bytes().to_vec()
    );
}

#[test]
fn twenty_four_bits_are_three_bytes_of_thirty_two() {
    let value = 0x12_3456;
    let wide_le = ByteOrder::Little.to_bytes(IntType::U32, value);
    let wide_be = ByteOrder::Big.to_bytes(IntType::U32, value);
    assert_eq!(ByteOrder::Little.to_bytes(IntType::U24, value), wide_le[0..3].to_vec());
    assert_eq!(ByteOrder::Big.to_bytes(IntType::U24, value), wide_be[1..4].to_vec());
    let negative = -0x12_3456;
    let wide_le = ByteOrder::Little.to_bytes(IntType::I32, negative);
    let wide_be = ByteOrder::Big.to_bytes(IntType::I32, negative);
    assert_eq!(ByteOrder::Little.to_bytes(IntType::I24, negative), wide_le[0..3].to_vec());
    assert_eq!(ByteOrder::Big.to_bytes(IntType::I24, negative), wide_be[1..4].to_vec());
}

#[test]
fn write_bytes_from_bigint_fills_the_front_of_the_buffer() {
    let mut dest = [9u8; 5];
    let r = IntType::U16.write_bytes_from_bigint(0x0102, Endianness::Big, ByteOrder::Little, &mut dest);
    assert_eq!(r, Ok(()));
    assert_eq!(dest, [1, 2, 9, 9, 9]);

    let mut dest = [9u8; 3];
    let r = IntType::U24.write_bytes_from_bigint(1_000_000, Endianness::Native, ByteOrder::Little, &mut dest);
    assert_eq!(r, Ok(()));
    assert_eq!(dest, [64, 66, 15]);

    let mut dest = [9u8; 3];
    let r = IntType::U24.write_bytes_from_bigint(1_000_000, Endianness::Native, ByteOrder::Big, &mut dest);
    assert_eq!(r, Ok(()));
    assert_eq!(dest, [15, 66, 64]);
}

#[test]
fn write_bytes_from_bigint_refuses_what_does_not_fit() {
    let mut dest = [9u8; 4];
    let r = IntType::U8.write_bytes_from_bigint(256, Endianness::Little, ByteOrder::Little, &mut dest);
    assert_eq!(r, Err(Error::OutOfRange));
    assert_eq!(dest, [9, 9, 9, 9]);
    let r = IntType::U16.write_bytes_from_bigint(-1, Endianness::Little, ByteOrder::Little, &mut dest);
    assert_eq!(r, Err(Error::OutOfRange));
    assert_eq!(dest, [9, 9, 9, 9]);
    let r = IntType::I24.write_bytes_from_bigint(8_388_608, Endianness::Big, ByteOrder::Little, &mut dest);
    assert_eq!(r, Err(Error::OutOfRange));
    assert_eq!(dest, [9, 9, 9, 9]);
}

#[test]
fn decimal_to_int_reads_signs_and_digits() {
    assert_eq!(decimal_to_int("0", IntType::U8), Ok(0));
    assert_eq!(decimal_to_int("255", IntType::U8), Ok(255));
    assert_eq!(decimal_to_int("+7", IntType::U8), Ok(7));
    assert_eq!(decimal_to_int("007", IntType::U8), Ok(7));
    assert_eq!(decimal_to_int("-5", IntType::I8), Ok(-5));
    assert_eq!(decimal_to_int("+5", IntType::I8), Ok(5));
    assert_eq!(decimal_to_int("-0", IntType::I8), Ok(0));
    assert_eq!(decimal_to_int("-128", IntType::I8), Ok(-128));
    assert_eq!(
        decimal_to_int("18446744073709551615", IntType::U64),
        Ok(u64::MAX as i128)
    );
    assert_eq!(
        decimal_to_int("-9223372036854775808", IntType::I64),
        Ok(i64::MIN as i128)
    );
}

#[test]
fn decimal_to_int_refuses_what_is_no_number() {
    assert_eq!(decimal_to_int("", IntType::U8), Err(Error::InvalidDigits));
    assert_eq!(decimal_to_int("+", IntType::U8), Err(Error::InvalidDigits));
    assert_eq!(decimal_to_int("-", IntType::I8), Err(Error::InvalidDigits));
    assert_eq!(decimal_to_int("-5", IntType::U8), Err(Error::InvalidDigits));
    assert_eq!(decimal_to_int("1_0", IntType::U8), Err(Error::InvalidDigits));
    assert_eq!(decimal_to_int("12a", IntType::U32), Err(Error::InvalidDigits));
    assert_eq!(decimal_to_int(" 1", IntType::U32), Err(Error::InvalidDigits));
    assert_eq!(decimal_to_int("+-1", IntType::I32), Err(Error::InvalidDigits));
    assert_eq!(
        decimal_to_int("99999999999999999999999999999999999999999x", IntType::U8),
        Err(Error::InvalidDigits)
    );
}

#[test]
fn decimal_to_int_refuses_what_does_not_fit() {
    assert_eq!(decimal_to_int("256", IntType::U8), Err(Error::OutOfRange));
    assert_eq!(decimal_to_int("128", IntType::I8), Err(Error::OutOfRange));
    assert_eq!(decimal_to_int("-129", IntType::I8), Err(Error::OutOfRange));
    assert_eq!(decimal_to_int("16777216", IntType::U24), Err(Error::OutOfRange));
    assert_eq!(
        decimal_to_int("18446744073709551616", IntType::U64),
        Err(Error::OutOfRange)
    );
    assert_eq!(
        decimal_to_int("340282366920938463463374607431768211456000", IntType::U64),
        Err(Error::OutOfRange)
    );
    assert_eq!(
        decimal_to_int("-340282366920938463463374607431768211456000", IntType::I64),
        Err(Error::OutOfRange)
    );
}

#[test]
fn base10_digits_to_bytes_encodes_what_it_reads() {
    assert_eq!(
        base10_digits_to_bytes("258", IntType::U16, Endianness::Little, ByteOrder::Big),
        Ok(vec![2, 1])
    );
    assert_eq!(
        base10_digits_to_bytes("258", IntType::U16, Endianness::Big, ByteOrder::Little),
        Ok(vec![1, 2])
    );
    assert_eq!(
        base10_digits_to_bytes("258", IntType::U16, Endianness::Native, ByteOrder::Big),
        Ok(vec![1, 2])
    );
    assert_eq!(
        base10_digits_to_bytes("-2", IntType::I32, Endianness::Big, ByteOrder::Little),
        Ok(vec![0xFF, 0xFF, 0xFF, 0xFE])
    );
    assert_eq!(
        base10_digits_to_bytes("1000000", IntType::U24, Endianness::Little, ByteOrder::Little),
        Ok(vec![64, 66, 15])
    );
    assert_eq!(
        base10_digits_to_bytes("300", IntType::U8, Endianness::Little, ByteOrder::Little),
        Err(Error::OutOfRange)
    );
    assert_eq!(
        base10_digits_to_bytes("x", IntType::U8, Endianness::Little, ByteOrder::Little),
        Err(Error::InvalidDigits)
    );
}

#[test]
fn u24_new_holds_up_to_its_greatest_value() {
    assert_eq!(U24::new(0).map(|u| u.get()), Ok(0));
    assert_eq!(U24::new(0xFF_FFFF).map(|u| u.get()), Ok(0xFF_FFFF));
    assert_eq!(U24::new(0x100_0000).map(|u| u.get()), Err(InvalidU24Error));
    assert_eq!(U24::new(u32::MAX).map(|u| u.get()), Err(InvalidU24Error));
}

#[test]
fn u24_from_str_and_try_from() {
    assert_eq!(U24::from_str("16777215").map(|u| u.get()), Ok(16_777_215));
    assert_eq!(U24::from_str("+12").map(|u| u.get()), Ok(12));
    assert_eq!(U24::from_str("16777216").map(|u| u.get()), Err(InvalidU24Error));
    assert_eq!(U24::from_str("-1").map(|u| u.get()), Err(InvalidU24Error));
    assert_eq!(U24::from_str("").map(|u| u.get()), Err(InvalidU24Error));
    assert_eq!(U24::try_from(5).map(|u| u.get()), Ok(5));
    assert_eq!(U24::try_from(-5).map(|u| u.get()), Err(InvalidU24Error));
    assert_eq!(U24::try_from(1 << 24).map(|u| u.get()), Err(InvalidU24Error));
    assert_eq!(U24::try_from(i128::MAX).map(|u| u.get()), Err(InvalidU24Error));
}

#[test]
fn u24_bytes_in_both_orders() {
    let value = U24::new(0x12_3456).ok().expect("a value of 24 bits");
    assert_eq!(value.to_be_bytes(), [0x12, 0x34, 0x56]);
    assert_eq!(value.to_le_bytes(), [0x56, 0x34, 0x12]);
    assert_eq!(value.to_be_bytes(), 0x12_3456u32.to_be_bytes()[1..4]);
    assert_eq!(value.to_le_bytes(), 0x12_3456u32.to_le_bytes()[0..3]);
}

#[test]
fn i24_new_holds_its_range() {
    assert_eq!(I24::new(-8_388_608).map(|u| u.get()), Ok(-8_388_608));
    assert_eq!(I24::new(8_388_607).map(|u| u.get()), Ok(8_388_607));
    assert_eq!(I24::new(8_388_608).map(|u| u.get()), Err(InvalidU24Error));
    assert_eq!(I24::new(-8_388_609).map(|u| u.get()), Err(InvalidU24Error));
}

#[test]
fn i24_from_str_and_try_from() {
    assert_eq!(I24::from_str("-8388608").map(|u| u.get()), Ok(-8_388_608));
    assert_eq!(I24::from_str("8388608").map(|u| u.get()), Err(InvalidU24Error));
    assert_eq!(I24::from_str("abc").map(|u| u.get()), Err(InvalidU24Error));
    assert_eq!(I24::try_from(-1).map(|u| u.get()), Ok(-1));
    assert_eq!(I24::try_from(i128::MIN).map(|u| u.get()), Err(InvalidU24Error));
}

#[test]
fn i24_bytes_in_both_orders() {
    let value = I24::new(-2).ok().expect("a value of 24 bits");
    assert_eq!(value.to_be_bytes(), [0xFF, 0xFF, 0xFE]);
    assert_eq!(value.to_le_bytes(), [0xFE, 0xFF, 0xFF]);
    assert_eq!(value.to_be_bytes(), (-2i32).to_be_bytes()[1..4]);
    assert_eq!(value.to_le_bytes(), (-2i32).to_le_bytes()[0..3]);
}

#[test]
fn invalid_u24_error_says_what_is_wrong() {
    assert_eq!(
        InvalidU24Error.message(),
        "Value out of range for u24 (must be 0..=16777215)"
    );
}
