use bytes::{BufMut, BytesMut};
use modular_mc::var_int::{get_var_int, VarIntError, VarIntLength};

#[test]
fn var_int_25565() {
    let sample_var_int = {
        let mut bytes = BytesMut::with_capacity(3);
        bytes.put_u8(0xdd);
        bytes.put_u8(0xc7);
        bytes.put_u8(0x01);
        bytes
    };

    assert_eq!(get_var_int::<i32>(&sample_var_int[..]).unwrap().0, 25565);
}

#[test]
fn var_int_reports_bytes_used() {
    let input = [0xdd, 0xc7, 0x01, 0x7f, 0x00];
    assert_eq!(get_var_int::<i32>(&input), Ok((25565, 3)));
}

#[test]
fn var_int_single_bytes() {
    assert_eq!(get_var_int::<i32>(&[0x00]), Ok((0, 1)));
    assert_eq!(get_var_int::<i32>(&[0x01]), Ok((1, 1)));
    assert_eq!(get_var_int::<i32>(&[0x3f]), Ok((63, 1)));
    assert_eq!(get_var_int::<i32>(&[0x80]), Ok((0, 1)));
    assert_eq!(get_var_int::<i32>(&[0xbf, 0x01]), Ok((63, 1)));
    assert_eq!(get_var_int::<i32>(&[0x40, 0x00]), Ok((64, 2)));
    assert_eq!(get_var_int::<i32>(&[0x40, 0x01]), Ok((192, 2)));
}

#[test]
fn var_int_negative_wraps() {
    assert_eq!(get_var_int::<i32>(&[0xff, 0xff, 0xff, 0xff, 0x0f]), Ok((-1, 5)));
    assert_eq!(get_var_int::<i32>(&[0x40, 0x7f, 0x7f, 0x7f, 0x0f]), Ok((-64, 5)));
    assert_eq!(get_var_int::<i32>(&[0xff, 0xff, 0xff, 0xff, 0x07]), Ok((i32::MAX, 5)));
}

#[test]
fn var_long_values() {
    let minus_one = [0xff, 0xff, 0xff, 0xff, 0xff, 0xff, 0xff, 0xff, 0xff, 0x01];
    assert_eq!(get_var_int::<i64>(&minus_one), Ok((-1, 10)));
    let max = [0x7f, 0x7f, 0x7f, 0x7f, 0x7f, 0x7f, 0x7f, 0x7f, 0x7f, 0x00];
    assert_eq!(get_var_int::<i64>(&max), Ok((i64::MAX, 10)));
    assert_eq!(get_var_int::<i64>(&[0xdd, 0xc7, 0x01]), Ok((25565, 3)));
}

#[test]
fn var_int_too_many_bytes() {
    let input = [0x40, 0x40, 0x40, 0x40, 0x40, 0x01];
    assert_eq!(
        get_var_int::<i32>(&input),
        Err(VarIntError::TooManyBytes { length: VarIntLength::VarInt })
    );
    let five = [0x40u8; 5];
    assert_eq!(
        get_var_int::<i32>(&five),
        Err(VarIntError::TooManyBytes { length: VarIntLength::VarInt })
    );
    let long = [0x40u8; 11];
    assert_eq!(
        get_var_int::<i64>(&long),
        Err(VarIntError::TooManyBytes { length: VarIntLength::VarLong })
    );
}

#[test]
fn var_int_missing_byte() {
    assert_eq!(get_var_int::<i32>(&[]), Err(VarIntError::MissingExpectedByte));
    assert_eq!(get_var_int::<i32>(&[0x40]), Err(VarIntError::MissingExpectedByte));
    assert_eq!(get_var_int::<i32>(&[0xc0, 0x7f]), Err(VarIntError::MissingExpectedByte));
    assert_eq!(
        get_var_int::<i64>(&[0xff, 0xff, 0xff, 0xff, 0xff]),
        Err(VarIntError::MissingExpectedByte)
    );
}

#[test]
fn var_int_max_lengths() {
    assert_eq!(VarIntLength::VarInt.max_length(), 35);
    assert_eq!(VarIntLength::VarLong.max_length(), 70);
}
