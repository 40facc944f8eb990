use std::cmp::Ordering;
use std::fmt::Debug;
use std::mem::align_of;
use std::mem::size_of;

use blazesym::decode::decode_leb128;
use blazesym::decode::decode_leb128_128;
use blazesym::decode::decode_leb128_s;
use blazesym::decode::decode_udword;
use blazesym::decode::decode_uhalf;
use blazesym::decode::decode_uword;
use blazesym::pod::Pod;
use blazesym::reader::RawReader;
use blazesym::reorder::reorder;
use blazesym::reorder::with_ordered_elems;
use blazesym::search::find_match_or_lower_bound;
use blazesym::search::find_match_or_lower_bound_by;
use blazesym::search::search_address_opt_key;

/// Check whether an iterator represents a sorted sequence.
fn is_sorted_by<I, F>(mut iter: I, mut compare: F) -> bool
where
    I: Iterator,
    F: FnMut(&I::Item, &I::Item) -> Option<Ordering>,
{
    let mut last = match iter.next() {
        Some(e) => e,
        None => return true,
    };
    for curr in iter {
        if let Some(Ordering::Greater) | None = compare(&last, &curr) {
            return false
        }
        last = curr;
    }
    true
}

/// Check whether an iterator represents a sorted sequence.
fn is_sorted<I>(iter: I) -> bool
where
    I: Iterator,
    I::Item: PartialOrd,
{
    is_sorted_by(iter, PartialOrd::partial_cmp)
}

/// A 64 byte buffer and the offset of its first `u64`-aligned byte.
fn aligned_buffer() -> ([u8; 64], usize) {
    let buffer = [0u8; 64];
    let offset = buffer.as_ptr().align_offset(align_of::<u64>());
    assert!(offset < size_of::<u64>());
    (buffer, offset)
}

/// Make sure that we can detect sorted slices.
#[test]
fn sorted_check() {
    assert!(is_sorted([1, 5, 6].iter()));
    assert!(!is_sorted([1, 5, 6, 0].iter()));
}

/// Check that we can reorder elements in an array as expected.
#[test]
fn array_reordering() {
    let mut array: Vec<usize> = vec![];
    reorder::<usize, ()>(&mut array, vec![]);

    let mut array = vec![8];
    reorder(&mut array, vec![((), 0)]);
    assert_eq!(array, vec![8]);

    let mut array = vec![8, 1, 4, 0, 3];
    reorder(
        &mut array,
        [4, 1, 3, 0, 2].into_iter().map(|x| ((), x)).collect(),
    );
    assert_eq!(array, vec![0, 1, 3, 4, 8]);
}

/// Check that `with_ordered_elems` works as it should.
#[test]
fn with_element_ordering() {
    let vec = vec![5u64, 0, 1, 99, 6, 2];
    let result = with_ordered_elems(&vec, |keys: Vec<u64>| {
        assert!(is_sorted(keys.iter()));
        Ok::<_, ()>(keys.into_iter().map(|x| x + 2).collect::<Vec<_>>())
    })
    .unwrap();
    assert_eq!(result, vec.into_iter().map(|x| x + 2).collect::<Vec<_>>());
}

/// The output of the operation comes back in the order of the input, also
/// for equal keys, and the operation sees the keys sorted.
#[test]
fn ordered_elems_restore_input_order() {
    let input = vec![30u64, 10, 20, 10, 30, 0];
    let result = with_ordered_elems(&input, |keys: Vec<u64>| {
        assert_eq!(keys, vec![0, 10, 10, 20, 30, 30]);
        Ok::<_, ()>(keys.iter().map(|k| format!("v{k}")).collect::<Vec<_>>())
    })
    .unwrap();
    let expected = input.iter().map(|k| format!("v{k}")).collect::<Vec<_>>();
    assert_eq!(result, expected);

    let empty: Vec<u64> = vec![];
    let result = with_ordered_elems(&empty, |keys: Vec<u64>| Ok::<Vec<u8>, ()>(keys.iter().map(|_| 0).collect()));
    assert_eq!(result, Ok(vec![]));
}

/// An error of the operation is handed back.
#[test]
fn ordered_elems_pass_errors_on() {
    let result = with_ordered_elems(&[3u64, 1], |_keys: Vec<u64>| Err::<Vec<u8>, &str>("fail"));
    assert_eq!(result, Err("fail"));
}

/// Make sure that `ensure` works as expected.
#[test]
fn u8_slice_len_ensurance() {
    let slice = [0u8; 0].as_slice();
    assert_eq!(RawReader::new(slice).ensure(0), Some(()));
    assert_eq!(RawReader::new(slice).ensure(1), None);

    let slice = [1u8].as_slice();
    assert_eq!(RawReader::new(slice).ensure(0), Some(()));
    assert_eq!(RawReader::new(slice).ensure(1), Some(()));
    assert_eq!(RawReader::new(slice).ensure(2), None);
}

/// Check that we can align the read pointer.
#[test]
fn u8_slice_align() {
    let (buffer, offset) = aligned_buffer();
    let aligned = &buffer[offset..offset + 16];
    let mut data = RawReader::new(aligned);

    let () = data.align(1).unwrap();
    assert_eq!(data.remaining().as_ptr(), aligned.as_ptr());

    let () = data.align(2).unwrap();
    assert_eq!(data.remaining().as_ptr(), aligned.as_ptr());

    let () = data.align(4).unwrap();
    assert_eq!(data.remaining().as_ptr(), aligned.as_ptr());

    let () = data.align(8).unwrap();
    assert_eq!(data.remaining().as_ptr(), aligned.as_ptr());

    // After this read we are unaligned again.
    let _byte = data.read_u8();

    // Nothing should happen when attempting to align to 1 byte
    // boundary.
    let () = data.align(1).unwrap();
    assert_eq!(data.remaining().as_ptr(), aligned[1..].as_ptr());

    // But once we align to a four byte boundary we the pointer
    // should move.
    let () = data.align(4).unwrap();
    assert_eq!(data.remaining().as_ptr(), aligned[4..].as_ptr());
}

/// Aligning to something that is not a power of two, or past the end of
/// the buffer, fails and leaves the reader where it was.
#[test]
fn align_rejections() {
    let (buffer, offset) = aligned_buffer();
    let aligned = &buffer[offset + 1..offset + 4];
    let mut data = RawReader::new(aligned);
    assert_eq!(data.align(3), None);
    assert_eq!(data.align(0), None);
    assert_eq!(data.align(8), None);
    assert_eq!(data.remaining().as_ptr(), aligned.as_ptr());
    assert_eq!(data.align(4), Some(()));
    assert_eq!(data.remaining().len(), 0);
}

fn check_pod<T: Pod + PartialEq + Debug>(max: T, max_bytes: &[u8], one: T, one_bytes: &[u8]) {
    let mut data = Vec::new();
    let () = data.extend_from_slice(max_bytes);
    let () = data.extend_from_slice(one_bytes);
    let () = data.extend_from_slice(&[1, 2, 3, 4, 5, 6, 7, 8]);

    let mut raw = RawReader::new(data.as_slice());
    let uword = raw.read_pod::<T>().unwrap();
    assert_eq!(uword, max);

    let uword = raw.read_pod::<T>().unwrap();
    assert_eq!(uword, one);
}

/// Check that we can read various integers from a slice.
#[test]
fn pod_reading() {
    check_pod(i8::MAX, &i8::MAX.to_ne_bytes(), 1i8, &1i8.to_ne_bytes());
    check_pod(u8::MAX, &u8::MAX.to_ne_bytes(), 1u8, &1u8.to_ne_bytes());
    check_pod(i16::MAX, &i16::MAX.to_ne_bytes(), 1i16, &1i16.to_ne_bytes());
    check_pod(u16::MAX, &u16::MAX.to_ne_bytes(), 1u16, &1u16.to_ne_bytes());
    check_pod(i32::MAX, &i32::MAX.to_ne_bytes(), 1i32, &1i32.to_ne_bytes());
    check_pod(u32::MAX, &u32::MAX.to_ne_bytes(), 1u32, &1u32.to_ne_bytes());
    check_pod(i64::MAX, &i64::MAX.to_ne_bytes(), 1i64, &1i64.to_ne_bytes());
    check_pod(u64::MAX, &u64::MAX.to_ne_bytes(), 1u64, &1u64.to_ne_bytes());
    check_pod(i128::MAX, &i128::MAX.to_ne_bytes(), 1i128, &1i128.to_ne_bytes());
    check_pod(u128::MAX, &u128::MAX.to_ne_bytes(), 1u128, &1u128.to_ne_bytes());
}

/// Check that we can read `Pod`s that must be aligned.
#[test]
fn pod_ref_reading() {
    // This test assumes that `u64`'s required alignment is greater
    // than 1.
    assert!(align_of::<u64>() > 1, "{}", align_of::<u64>());

    let (mut buffer, offset) = aligned_buffer();
    buffer[offset..offset + 8].copy_from_slice(&1337u64.to_ne_bytes());

    // We are sure that we have at least space for two `u64` (16
    // bytes) in the buffer, even after alignment.
    let mut slice = RawReader::new(&buffer[offset..offset + 16]);
    assert_eq!(slice.read_pod_ref::<u64>(), Some(1337));

    // Make sure that we fail if there is insufficient space.
    let mut slice = RawReader::new(&buffer[offset..offset + 4]);
    assert_eq!(slice.read_pod_ref::<u64>(), None);

    // Now also try with an unaligned pointer. It is guaranteed to
    // be unaligned if we add a one byte offset.
    let mut slice = RawReader::new(&buffer[offset + 1..offset + 16]);
    assert_eq!(slice.read_pod_ref::<u64>(), None);
}

/// A misaligned or short read fails without moving the reader; reads of
/// several values check alignment and length the same way.
#[test]
fn pod_ref_failures_leave_reader() {
    let (mut buffer, offset) = aligned_buffer();
    buffer[offset..offset + 8].copy_from_slice(&7u32.to_ne_bytes().repeat(2));
    let data = &buffer[offset + 1..offset + 16];
    let mut reader = RawReader::new(data);
    assert_eq!(reader.read_pod_ref::<u64>(), None);
    assert_eq!(reader.read_pod_slice_ref::<u32>(2), None);
    assert_eq!(reader.remaining().len(), 15);
    assert_eq!(reader.remaining().as_ptr(), data.as_ptr());

    let mut reader = RawReader::new(&buffer[offset..offset + 8]);
    assert_eq!(reader.read_pod_slice_ref::<u32>(3), None);
    assert_eq!(reader.read_pod_slice_ref::<u32>(usize::MAX), None);
    assert_eq!(reader.read_pod_slice_ref::<u32>(2), Some(vec![7, 7]));
    assert_eq!(reader.remaining().len(), 0);
}

/// Test reading of signed and unsigned 16 and 32 bit values against known
/// results.
#[test]
fn word_reading() {
    let data = 0xf936857fu32.to_ne_bytes();
    assert_eq!(RawReader::new(data.as_slice()).read_u16().unwrap(), 0x857f);
    assert_eq!(RawReader::new(data.as_slice()).read_i16().unwrap(), -31361);
    assert_eq!(RawReader::new(data.as_slice()).read_u32().unwrap(), 0xf936857f);
    assert_eq!(RawReader::new(data.as_slice()).read_i32().unwrap(), -113867393);
}

/// The fixed-width decoders read the first bytes of a slice.
#[test]
fn word_decoding() {
    let data = 0x0123456789abcdefu64.to_ne_bytes();
    assert_eq!(decode_udword(&data), 0x0123456789abcdef);
    let data = 0xf936857fu32.to_ne_bytes();
    assert_eq!(decode_uword(&data), 0xf936857f);
    assert_eq!(decode_uhalf(&data), 0x857f);
    let mut reader = RawReader::new(&data[..3]);
    assert_eq!(reader.read_u32(), None);
    assert_eq!(reader.read_u64(), None);
    assert_eq!(reader.read_u8(), Some(data[0]));
    assert_eq!(reader.remaining(), &data[1..3]);
}

/// Make sure that we can read leb128 encoded values.
#[test]
fn leb128_reading() {
    let data = [0xf4, 0xf3, 0x75];
    let (v, s) = RawReader::new(data.as_slice()).read_u128_leb128().unwrap();
    assert_eq!(v, 0x1d79f4);
    assert_eq!(s, 3);

    let (v, s) = RawReader::new(data.as_slice()).read_i128_leb128().unwrap();
    assert_eq!(v, -165388);
    assert_eq!(s, 3);
}

/// Encodes `v` as the shortest unsigned LEB128.
fn encode(mut v: u128) -> Vec<u8> {
    let mut out = Vec::new();
    loop {
        let byte = (v % 128) as u8;
        v /= 128;
        if v == 0 {
            out.push(byte);
            return out
        }
        out.push(byte | 0x80);
    }
}

/// Encoded numbers decode to themselves, in as many bytes as their seven-bit
/// groups.
#[test]
fn leb128_round_trip() {
    for (v, n) in [
        (0u128, 1u8),
        (1, 1),
        (127, 1),
        (128, 2),
        (624485, 3),
        (u64::MAX as u128, 10),
        (u128::MAX, 19),
    ] {
        let bytes = encode(v);
        assert_eq!(bytes.len(), n as usize);
        assert_eq!(decode_leb128_128(&bytes), Some((v, n)));
    }
    assert_eq!(encode(624485), vec![0xe5, 0x8e, 0x26]);
}

/// Decoding fails when no byte ends the number, and the narrower decoders
/// keep the low bits.
#[test]
fn leb128_edges() {
    assert_eq!(decode_leb128_128(&[]), None);
    assert_eq!(decode_leb128_128(&[0x80, 0x80]), None);
    assert_eq!(decode_leb128(&[0xe5, 0x8e, 0x26, 0xff]), Some((624485, 3)));
    assert_eq!(decode_leb128_s(&[0x7f]), Some((-1, 1)));
    assert_eq!(decode_leb128_s(&[0x3f]), Some((63, 1)));
    assert_eq!(decode_leb128_s(&[0xc0, 0xbb, 0x78]), Some((-123456, 3)));

    let mut reader = RawReader::new(&[0x80, 0x01, 0x05]);
    assert_eq!(reader.read_u128_leb128(), Some((128, 2)));
    assert_eq!(reader.read_u8(), Some(5));

    // Too long for its length to fit: the whole number is consumed.
    let mut long = [0x80u8; 300];
    long[279] = 0x01;
    let mut reader = RawReader::new(&long);
    assert_eq!(reader.read_u128_leb128(), None);
    assert_eq!(reader.remaining().len(), 300 - 280);

    // No byte ends the number: everything is consumed.
    let unterminated = [0x80u8; 256];
    let mut reader = RawReader::new(&unterminated);
    assert_eq!(reader.read_u128_leb128(), None);
    assert_eq!(reader.remaining().len(), 0);
    let mut reader = RawReader::new(&unterminated[..3]);
    assert_eq!(reader.read_i128_leb128(), None);
    assert_eq!(reader.remaining().len(), 0);
}

/// Check that we can read a NUL terminated string from a slice.
#[test]
fn cstr_reading() {
    let mut slice = RawReader::new(b"abc\x001234".as_slice());

    let cstr = slice.read_cstr().unwrap();
    assert_eq!(cstr, b"abc");
    assert_eq!(slice.remaining(), b"1234");

    // No terminating NUL byte.
    let mut slice = RawReader::new(b"abc".as_slice());
    assert_eq!(slice.read_cstr(), None);
    assert_eq!(slice.remaining(), b"abc");
}

/// Reading a run of bytes consumes exactly those bytes.
#[test]
fn slice_reading() {
    let mut reader = RawReader::new(b"abcdef");
    assert_eq!(reader.read_slice(2), Some(b"ab".as_slice()));
    assert_eq!(reader.read_slice(5), None);
    assert_eq!(reader.read_slice(4), Some(b"cdef".as_slice()));
    assert_eq!(reader.read_slice(0), Some(b"".as_slice()));
}

/// Test that we correctly binary search for a lower bound.
#[test]
fn search_lower_bound() {
    let data: [u64; 0] = [];
    assert_eq!(find_match_or_lower_bound(&data, 0), None);

    let data = [5];
    assert_eq!(find_match_or_lower_bound(&data, 0), None);
    assert_eq!(find_match_or_lower_bound(&data, 1), None);
    assert_eq!(find_match_or_lower_bound(&data, 4), None);
    assert_eq!(find_match_or_lower_bound(&data, 5), Some(0));
    assert_eq!(find_match_or_lower_bound(&data, 6), Some(0));

    let data = [5, 5];
    assert_eq!(find_match_or_lower_bound(&data, 5), Some(0));

    let data = [5, 5, 5];
    assert_eq!(find_match_or_lower_bound(&data, 5), Some(0));

    let data = [5, 5, 5, 5];
    assert_eq!(find_match_or_lower_bound(&data, 5), Some(0));

    let data = [4, 5, 5, 5, 5];
    assert_eq!(find_match_or_lower_bound(&data, 5), Some(1));

    let data = [1, 4, 42, 43, 99];
    assert_eq!(find_match_or_lower_bound(&data, 0), None);
    assert_eq!(find_match_or_lower_bound(&data, 1), Some(0));
    assert_eq!(find_match_or_lower_bound(&data, 4), Some(1));
    assert_eq!(find_match_or_lower_bound(&data, 5), Some(1));
    assert_eq!(find_match_or_lower_bound(&data, 41), Some(1));
    assert_eq!(find_match_or_lower_bound(&data, 98), Some(3));
    assert_eq!(find_match_or_lower_bound(&data, 99), Some(4));
    assert_eq!(find_match_or_lower_bound(&data, 100), Some(4));
    assert_eq!(find_match_or_lower_bound(&data, 1337), Some(4));
}

/// The search by key: a predecessor is the last element of a run of equal
/// keys below the query.
#[test]
fn search_lower_bound_by_key() {
    let ranges = [(1u64, 'a'), (4, 'b'), (4, 'c'), (42, 'd')];
    let key = |e: &(u64, char)| e.0;
    assert_eq!(find_match_or_lower_bound_by(&ranges, 0, key), None);
    assert_eq!(find_match_or_lower_bound_by(&ranges, 4, key), Some(1));
    assert_eq!(find_match_or_lower_bound_by(&ranges, 5, key), Some(2));
    assert_eq!(find_match_or_lower_bound_by(&ranges, 50, key), Some(3));
}

/// The search that skips elements without a key.
#[test]
fn search_with_missing_keys() {
    let data = [None, None, Some(10u64), None, Some(20), Some(30), None, Some(40), None];
    let key = |e: &Option<u64>| *e;
    assert_eq!(search_address_opt_key(&data, 5, &key), None);
    assert_eq!(search_address_opt_key(&data, 10, &key), Some(2));
    assert_eq!(search_address_opt_key(&data, 15, &key), Some(2));
    assert_eq!(search_address_opt_key(&data, 20, &key), Some(4));
    assert_eq!(search_address_opt_key(&data, 35, &key), Some(5));
    assert_eq!(search_address_opt_key(&data, 45, &key), Some(7));

    let none: [Option<u64>; 3] = [None, None, None];
    assert_eq!(search_address_opt_key(&none, 45, &key), None);
    let empty: [Option<u64>; 0] = [];
    assert_eq!(search_address_opt_key(&empty, 45, &key), None);
}
