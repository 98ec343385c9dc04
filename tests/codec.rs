use instrs::instruction::Instruction;
use instrs::sequence::str_into_bytes;
use instrs::tagged::{read_tag, tag_width, write_tag};
use instrs::{push_len, read_len, Error, Serialize};

fn encode<T: Serialize>(t: &T) -> Vec<u8> {
    let mut v = Vec::new();
    t.into_bytes::<u8>(&mut v).unwrap();
    v
}

fn decode<T: Serialize>(bytes: &[u8]) -> Result<T, Error> {
    let mut cursor = bytes;
    T::from_bytes::<u8>(&mut cursor)
}

#[test]
fn primitive_scenario() {
    assert_eq!(encode(&1u32), vec![1, 0, 0, 0]);
    assert_eq!(decode::<u32>(&[255, 255, 255, 255]), Ok(u32::MAX));
}

#[test]
fn boolean_scenario() {
    assert_eq!(encode(&true), vec![1]);
    assert_eq!(encode(&false), vec![0]);
    assert_eq!(decode::<bool>(&[0]), Ok(false));
    assert_eq!(decode::<bool>(&[1]), Ok(true));
    assert_eq!(decode::<bool>(&[2]), Err(Error::ExpectedRange { start: 0, end: 1 }));
    assert_eq!(decode::<bool>(&[]), Err(Error::ExpectedBytes(1)));
}

#[test]
fn sequence_scenario() {
    assert_eq!(encode(&vec![1u8, 2]), vec![2, 1, 2]);
    assert_eq!(decode::<Vec<u8>>(&[3, 1, 2, 3]), Ok(vec![1, 2, 3]));
    let mut cursor: &[u8] = &[3, 0, 1, 2, 3];
    assert_eq!(<Vec<u8>>::from_bytes::<u16>(&mut cursor), Ok(vec![1, 2, 3]));
    let mut v = Vec::new();
    vec![7u16].into_bytes::<u32>(&mut v).unwrap();
    assert_eq!(v, vec![1, 0, 0, 0, 7, 0]);
}

#[test]
fn tagged_union_scenario() {
    assert_eq!(encode(&Instruction::Add { a: 1, b: 2, addr: 3 }), vec![0, 1, 2, 3]);
    assert_eq!(encode(&Instruction::Jump(u32::MAX)), vec![1, 255, 255, 255, 255]);
    assert_eq!(encode(&Instruction::Halt), vec![2]);
    assert_eq!(decode::<Instruction>(&[2]), Ok(Instruction::Halt));
    assert_eq!(decode::<Instruction>(&[1, 64, 0, 0, 0]), Ok(Instruction::Jump(64)));
    assert_eq!(
        decode::<Instruction>(&[0, 1, 2, 3]),
        Ok(Instruction::Add { a: 1, b: 2, addr: 3 })
    );
}

#[test]
fn malformed_tag_scenario() {
    assert_eq!(decode::<Instruction>(&[9]), Err(Error::ExpectedRange { start: 0, end: 2 }));
    assert_eq!(decode::<Instruction>(&[]), Err(Error::ExpectedBytes(1)));
    assert_eq!(decode::<Instruction>(&[1, 0, 0]), Err(Error::ExpectedBytes(2)));
}

#[test]
fn round_trip_values() {
    let add = Instruction::Add { a: 9, b: 8, addr: 7 };
    assert_eq!(decode::<Instruction>(&encode(&add)), Ok(add));
    let text = String::from("h\u{e9}llo");
    assert_eq!(decode::<String>(&encode(&text)), Ok(text));
    let nested = (Some(5u16), vec![Some('x'), None], [-3i64, 4]);
    assert_eq!(decode::<(Option<u16>, Vec<Option<char>>, [i64; 2])>(&encode(&nested)), Ok(nested));
    let boxed = Box::new(Instruction::Jump(12));
    assert_eq!(decode::<Box<Instruction>>(&encode(&boxed)), Ok(boxed));
}

#[test]
fn round_trip_consumes_exactly_the_encoding() {
    let value = (vec![1u32, 2, 3], String::from("ab"));
    let bytes = encode(&value);
    let mut cursor: &[u8] = &bytes;
    assert_eq!(<(Vec<u32>, String)>::from_bytes::<u8>(&mut cursor), Ok(value));
    assert!(cursor.is_empty());
}

#[test]
fn prefix_tolerance() {
    let mut bytes = encode(&Instruction::Jump(300));
    bytes.extend_from_slice(&[0xAA, 0xBB]);
    let mut cursor: &[u8] = &bytes;
    assert_eq!(Instruction::from_bytes::<u8>(&mut cursor), Ok(Instruction::Jump(300)));
    assert_eq!(cursor, &[0xAA, 0xBB]);
    assert_eq!(decode::<bool>(&[1, 0, 0, 0, 0]), Ok(true));
    assert_eq!(decode::<u32>(&[3, 0, 0, 0, 9]), Ok(3));
}

#[test]
fn tag_width_boundaries() {
    assert_eq!(tag_width(0), 1);
    assert_eq!(tag_width(1), 1);
    assert_eq!(tag_width(256), 1);
    assert_eq!(tag_width(257), 2);
    assert_eq!(tag_width(65536), 2);
    assert_eq!(tag_width(65537), 4);
    assert_eq!(tag_width(0x1_0000_0000), 4);
    assert_eq!(tag_width(0x1_0000_0001), 8);
}

#[test]
fn wide_tags() {
    let mut v = Vec::new();
    write_tag(300, 1000, &mut v);
    assert_eq!(v, vec![44, 1]);
    let mut cursor: &[u8] = &v;
    assert_eq!(read_tag(1000, &mut cursor), Ok(300));
    let mut cursor: &[u8] = &[0xE8, 0x03];
    assert_eq!(read_tag(1000, &mut cursor), Err(Error::ExpectedRange { start: 0, end: 999 }));
    let mut cursor: &[u8] = &[5];
    assert_eq!(read_tag(1000, &mut cursor), Err(Error::ExpectedBytes(1)));
}

#[test]
fn length_overflow() {
    let long = vec![0u8; 256];
    let mut v = vec![42u8];
    assert_eq!(
        long.into_bytes::<u8>(&mut v),
        Err(Error::TooLarge { needed_bytes: 2, max_bytes: 1 })
    );
    assert_eq!(v, vec![42]);
    let mut w = Vec::new();
    long.into_bytes::<u16>(&mut w).unwrap();
    assert_eq!(&w[..3], &[0, 1, 0]);
    assert_eq!(w.len(), 258);
    let mut x = Vec::new();
    assert_eq!(
        push_len::<u16>(70000, &mut x),
        Err(Error::TooLarge { needed_bytes: 3, max_bytes: 2 })
    );
    assert!(x.is_empty());
}

#[test]
fn length_prefix() {
    let mut v = Vec::new();
    push_len::<u16>(258, &mut v).unwrap();
    assert_eq!(v, vec![2, 1]);
    let mut cursor: &[u8] = &[2, 1, 7];
    assert_eq!(read_len::<u16>(&mut cursor), Ok(258));
    assert_eq!(cursor, &[7]);
    let mut cursor: &[u8] = &[2];
    assert_eq!(read_len::<u32>(&mut cursor), Err(Error::ExpectedBytes(3)));
}

#[test]
fn short_input() {
    assert_eq!(decode::<u32>(&[1, 2]), Err(Error::ExpectedBytes(2)));
    assert_eq!(decode::<u128>(&[]), Err(Error::ExpectedBytes(16)));
    assert_eq!(decode::<Vec<u8>>(&[3, 1]), Err(Error::ExpectedBytes(1)));
}

#[test]
fn invalid_char() {
    assert_eq!(decode::<char>(&[0, 0xD8, 0, 0]), Err(Error::InvalidChar));
    assert_eq!(decode::<char>(&[0, 0, 0x11, 0]), Err(Error::InvalidChar));
    assert_eq!(decode::<char>(&[0xE9, 0, 0, 0]), Ok('\u{e9}'));
}

#[test]
fn invalid_utf8() {
    assert_eq!(decode::<String>(&[2, 0xFF, 0xFE]), Err(Error::InvalidUtf8));
    assert_eq!(decode::<String>(&[2, 0xC3, 0xA9]), Ok(String::from("\u{e9}")));
}

#[test]
fn text_slices() {
    let mut v = Vec::new();
    str_into_bytes::<u8>("h\u{e9}", &mut v).unwrap();
    assert_eq!(v, vec![3, 104, 0xC3, 0xA9]);
    let mut w = Vec::new();
    str_into_bytes::<u16>("", &mut w).unwrap();
    assert_eq!(w, vec![0, 0]);
}

#[test]
fn signed_and_pointer_sized() {
    assert_eq!(encode(&-2i16), vec![254, 255]);
    assert_eq!(encode(&-128i8), vec![128]);
    assert_eq!(encode(&-1i128), vec![255; 16]);
    assert_eq!(decode::<i64>(&[255, 255, 255, 255, 255, 255, 255, 127]), Ok(i64::MAX));
    assert_eq!(encode(&5usize), vec![5, 0, 0, 0, 0, 0, 0, 0]);
    assert_eq!(encode(&-1isize), vec![255; 8]);
    assert_eq!(decode::<isize>(&[254, 255, 255, 255, 255, 255, 255, 255]), Ok(-2));
    assert_eq!(encode(&0x0102_0304_0506_0708u64), vec![8, 7, 6, 5, 4, 3, 2, 1]);
}

#[test]
fn options_and_boxes() {
    assert_eq!(encode(&Some(5u8)), vec![1, 5]);
    assert_eq!(encode(&None::<u8>), vec![0]);
    assert_eq!(decode::<Option<u8>>(&[2, 5]), Err(Error::ExpectedRange { start: 0, end: 1 }));
    assert_eq!(decode::<Option<u16>>(&[1, 5]), Err(Error::ExpectedBytes(1)));
    assert_eq!(encode(&Box::new(7u16)), vec![7, 0]);
}

#[test]
fn tuples_in_order() {
    assert_eq!(encode(&(1u8, 2u16, 'a')), vec![1, 2, 0, 97, 0, 0, 0]);
    let eight = (1u8, 2u8, 3u8, 4u8, 5u8, 6u8, 7u8, 8u8);
    assert_eq!(encode(&eight), vec![1, 2, 3, 4, 5, 6, 7, 8]);
    assert_eq!(decode::<(u8, u16)>(&[1, 2]), Err(Error::ExpectedBytes(1)));
}

#[test]
fn boxed_slices() {
    let boxed: Box<[u16]> = vec![1u16, 2].into_boxed_slice();
    assert_eq!(encode(&boxed), vec![2, 1, 0, 2, 0]);
    assert_eq!(decode::<Box<[u16]>>(&[2, 1, 0, 2, 0]), Ok(boxed));
}

#[test]
fn cursor_after_errors() {
    let mut c: &[u8] = &[1, 2];
    assert_eq!(u32::from_bytes::<u8>(&mut c), Err(Error::ExpectedBytes(2)));
    assert_eq!(c, &[1, 2]);
    let mut c: &[u8] = &[1, 2, 3];
    assert_eq!(<(u8, u32)>::from_bytes::<u8>(&mut c), Err(Error::ExpectedBytes(2)));
    assert_eq!(c, &[2, 3]);
    let mut c: &[u8] = &[7, 9];
    assert_eq!(bool::from_bytes::<u8>(&mut c), Err(Error::ExpectedRange { start: 0, end: 1 }));
    assert_eq!(c, &[9]);
    let mut c: &[u8] = &[0, 0xD8, 0, 0, 5];
    assert_eq!(char::from_bytes::<u8>(&mut c), Err(Error::InvalidChar));
    assert_eq!(c, &[5]);
    let mut c: &[u8] = &[2, 0xFF, 0xFE, 6];
    assert_eq!(String::from_bytes::<u8>(&mut c), Err(Error::InvalidUtf8));
    assert_eq!(c, &[6]);
    let mut c: &[u8] = &[1, 4, 0];
    assert_eq!(<Option<u32>>::from_bytes::<u8>(&mut c), Err(Error::ExpectedBytes(2)));
    assert_eq!(c, &[4, 0]);
    let mut c: &[u8] = &[3, 1, 2];
    assert_eq!(<Vec<u8>>::from_bytes::<u8>(&mut c), Err(Error::ExpectedBytes(1)));
    assert!(c.is_empty());
    let mut c: &[u8] = &[9, 1];
    assert_eq!(Instruction::from_bytes::<u8>(&mut c), Err(Error::ExpectedRange { start: 0, end: 2 }));
    assert_eq!(c, &[1]);
}

#[test]
fn buffer_after_errors() {
    let long = vec![0u8; 256];
    let mut v = vec![9u8];
    assert!(Some(long.clone()).into_bytes::<u8>(&mut v).is_err());
    assert_eq!(v, vec![9, 1]);
    let mut w = vec![9u8];
    assert!((5u8, long.clone()).into_bytes::<u8>(&mut w).is_err());
    assert_eq!(w, vec![9, 5]);
    let mut x = vec![9u8];
    assert!(Box::new(long.clone()).into_bytes::<u8>(&mut x).is_err());
    assert_eq!(x, vec![9]);
    let mut y = Vec::new();
    assert!(vec![vec![1u8], long].into_bytes::<u8>(&mut y).is_err());
    assert_eq!(y, vec![2, 1, 1]);
}

#[test]
fn trailing_bytes_do_not_matter() {
    let mut c: &[u8] = &[2, 1, 0, 2, 0, 0xEE];
    assert_eq!(<Vec<u16>>::from_bytes::<u8>(&mut c), Ok(vec![1, 2]));
    assert_eq!(c, &[0xEE]);
    let mut c: &[u8] = &[1, 7, 0xEE, 0xFF];
    assert_eq!(<(bool, u8)>::from_bytes::<u8>(&mut c), Ok((true, 7)));
    assert_eq!(c, &[0xEE, 0xFF]);
}
