use pynative::array::{
    array_reconstructor, ArrayError, ArrayInit, ArrayNewArgs, ArrayValue, MachineFormatCode, PyArray, PyArrayIter,
    WideChar,
};
use std::cmp::Ordering;
use pynative::slice::SliceArgs;

fn ints(code: char, values: &[i128]) -> PyArray {
    let vs: Vec<ArrayValue> = values.iter().map(|&v| ArrayValue::Int(v)).collect();
    PyArray::py_new(ArrayNewArgs { spec: code, init: Some(ArrayInit::Values(vs)) }).unwrap()
}

fn as_ints(a: &PyArray) -> Vec<i128> {
    a.tolist()
        .unwrap()
        .into_iter()
        .map(|v| match v {
            ArrayValue::Int(x) => x,
            other => panic!("not an integer: {:?}", other),
        })
        .collect()
}

fn slice(start: Option<i128>, stop: Option<i128>, step: Option<i128>) -> SliceArgs {
    SliceArgs { start, stop, step }
}

#[test]
fn slice_assignment_keeps_length() {
    let mut a = ints('i', &[1, 2, 3]);
    let b = ints('i', &[9, 9]);
    a.setitem_slice(slice(Some(1), Some(3), None), &b).unwrap();
    assert_eq!(as_ints(&a), vec![1, 9, 9]);
    assert_eq!(a.__len__(), 3);
}

#[test]
fn append_refused_while_view_exported() {
    let mut a = ints('i', &[1, 2, 3]);
    let d = a.as_buffer();
    assert_eq!(d.len, 12);
    assert_eq!(d.itemsize, 4);
    assert_eq!(d.format, 'i');
    assert_eq!(a.append(ArrayValue::Int(4)), Err(ArrayError::Exported));
    assert_eq!(a.__len__(), 3);
    a.release_buffer();
    assert_eq!(a.append(ArrayValue::Int(4)), Ok(()));
    assert_eq!(a.__len__(), 4);
}

#[test]
fn length_changes_refused_while_exported_then_allowed() {
    let mut a = ints('h', &[1, 2, 3]);
    a.as_buffer();
    assert_eq!(a.try_resizable(), Err(ArrayError::Exported));
    assert_eq!(a.insert(0, ArrayValue::Int(7)), Err(ArrayError::Exported));
    assert_eq!(a.pop(-1), Err(ArrayError::Exported));
    assert_eq!(a.frombytes(&[1, 0]), Err(ArrayError::Exported));
    assert_eq!(a.delitem(0), Err(ArrayError::Exported));
    assert_eq!(a.__imul__(2), Err(ArrayError::Exported));
    let b = ints('h', &[5]);
    assert_eq!(a.setitem_slice(slice(Some(0), Some(2), None), &b), Err(ArrayError::Exported));
    // same length assignment and item stores do not move the storage
    let c = ints('h', &[8, 8]);
    assert_eq!(a.setitem_slice(slice(Some(0), Some(2), None), &c), Ok(()));
    assert_eq!(a.setitem(2, ArrayValue::Int(4)), Ok(()));
    assert_eq!(as_ints(&a), vec![8, 8, 4]);
    a.release_buffer();
    assert_eq!(a.insert(0, ArrayValue::Int(7)), Ok(()));
    assert_eq!(a.pop(-1), Ok(ArrayValue::Int(4)));
    assert_eq!(a.frombytes(&[1, 0]), Ok(()));
    assert_eq!(as_ints(&a), vec![7, 8, 8, 1]);
}

#[test]
fn bytes_round_trip_for_every_kind() {
    let cases: Vec<(char, Vec<ArrayValue>)> = vec![
        ('b', vec![ArrayValue::Int(-128), ArrayValue::Int(127), ArrayValue::Int(0)]),
        ('B', vec![ArrayValue::Int(255), ArrayValue::Int(1)]),
        ('u', vec![ArrayValue::Char('a' as u32), ArrayValue::Char(0x1F600)]),
        ('h', vec![ArrayValue::Int(-32768), ArrayValue::Int(12345)]),
        ('H', vec![ArrayValue::Int(65535)]),
        ('i', vec![ArrayValue::Int(-1), ArrayValue::Int(i32::MAX as i128)]),
        ('I', vec![ArrayValue::Int(u32::MAX as i128)]),
        ('l', vec![ArrayValue::Int(i64::MIN as i128), ArrayValue::Int(5)]),
        ('L', vec![ArrayValue::Int(u64::MAX as i128)]),
        ('q', vec![ArrayValue::Int(-42)]),
        ('Q', vec![ArrayValue::Int(1 << 63)]),
        ('f', vec![ArrayValue::Bits(1.5f32.to_bits() as u64), ArrayValue::Bits((-0.25f32).to_bits() as u64)]),
        ('d', vec![ArrayValue::Bits(3.25f64.to_bits()), ArrayValue::Bits(f64::NAN.to_bits())]),
    ];
    for (code, values) in cases {
        let a = PyArray::py_new(ArrayNewArgs { spec: code, init: Some(ArrayInit::Values(values.clone())) }).unwrap();
        let bytes = a.tobytes();
        assert_eq!(bytes.len(), a.__len__() * a.itemsize());
        let mut b = PyArray::new(code).unwrap();
        b.frombytes(&bytes).unwrap();
        assert_eq!(b.raw_items(), a.raw_items(), "kind {code}");
        assert_eq!(b.tolist().unwrap(), values, "kind {code}");
    }
}

#[test]
fn little_endian_item_bytes() {
    let a = ints('h', &[1, -2]);
    assert_eq!(a.tobytes(), vec![1, 0, 0xfe, 0xff]);
    let q = ints('Q', &[0x0102_0304_0506_0708]);
    assert_eq!(q.tobytes(), vec![8, 7, 6, 5, 4, 3, 2, 1]);
}

#[test]
fn frombytes_rejects_partial_items() {
    let mut a = PyArray::new('i').unwrap();
    assert_eq!(a.frombytes(&[1, 2, 3]), Err(ArrayError::BadLength));
    assert_eq!(a.frombytes(&[]), Ok(()));
    assert_eq!(a.__len__(), 0);
}

#[test]
fn reduce_and_reconstruct_in_own_layout() {
    let a = ints('l', &[-5, 1 << 40]);
    let (code, fmt, bytes) = a.__reduce_ex__();
    assert_eq!((code, fmt), ('l', 12));
    let b = array_reconstructor(code, fmt, &bytes).unwrap();
    assert_eq!(as_ints(&b), vec![-5, 1 << 40]);
}

#[test]
fn reconstruct_at_another_width() {
    // items serialized as signed 32-bit little-endian, rebuilt as 64-bit and 16-bit arrays
    let a = ints('i', &[-7, 300, 0]);
    let (_, fmt, bytes) = a.__reduce_ex__();
    assert_eq!(fmt, 8);
    let q = array_reconstructor('q', fmt, &bytes).unwrap();
    assert_eq!(as_ints(&q), vec![-7, 300, 0]);
    let h = array_reconstructor('h', fmt, &bytes).unwrap();
    assert_eq!(as_ints(&h), vec![-7, 300, 0]);
    // 300 does not fit an unsigned byte
    assert_eq!(array_reconstructor('B', fmt, &bytes).unwrap_err(), ArrayError::Overflow);
}

#[test]
fn reconstruct_every_integer_format() {
    for code in 0u8..=13 {
        let m = MachineFormatCode::try_from_u8(code).unwrap();
        let n = m.item_size();
        let signed = matches!(
            m,
            MachineFormatCode::Int8 { signed: true }
                | MachineFormatCode::Int16 { signed: true, .. }
                | MachineFormatCode::Int32 { signed: true, .. }
                | MachineFormatCode::Int64 { signed: true, .. }
        );
        let big = code >= 2 && code % 2 == 1;
        // the value 2 followed by -1 (or the largest unsigned value)
        let mut bytes = vec![0u8; n];
        if big { bytes[n - 1] = 2 } else { bytes[0] = 2 }
        bytes.extend(std::iter::repeat(0xffu8).take(n));
        let a = array_reconstructor('q', code, &bytes);
        let expect_second: i128 = if signed { -1 } else { (1i128 << (8 * n)) - 1 };
        if expect_second > i64::MAX as i128 {
            assert_eq!(a.unwrap_err(), ArrayError::Overflow, "code {code}");
        } else {
            assert_eq!(as_ints(&a.unwrap()), vec![2, expect_second], "code {code}");
        }
    }
}

#[test]
fn reconstruct_floats_and_text() {
    let bits = 1.5f32.to_bits();
    let be = bits.to_be_bytes().to_vec();
    let f = array_reconstructor('f', 15, &be).unwrap();
    assert_eq!(f.tolist().unwrap(), vec![ArrayValue::Bits(bits as u64)]);
    assert_eq!(array_reconstructor('d', 14, &bits.to_le_bytes().to_vec()).unwrap_err(), ArrayError::FloatWidth);
    assert_eq!(array_reconstructor('i', 14, &bits.to_le_bytes().to_vec()).unwrap_err(), ArrayError::TypeMismatch);
    // "h\u{1F600}" as UTF-16 little-endian
    let utf16: Vec<u8> = "h\u{1F600}".encode_utf16().flat_map(|u| u.to_le_bytes()).collect();
    let u = array_reconstructor('u', 18, &utf16).unwrap();
    assert_eq!(u.tounicode().unwrap(), vec!['h' as u32, 0x1F600]);
    assert_eq!(array_reconstructor('u', 18, &vec![0x00, 0xd8]).unwrap_err(), ArrayError::UnicodeDecode);
    let utf32be: Vec<u8> = ['o' as u32, 'k' as u32].iter().flat_map(|c| c.to_be_bytes()).collect();
    let u = array_reconstructor('u', 21, &utf32be).unwrap();
    assert_eq!(u.tounicode().unwrap(), vec!['o' as u32, 'k' as u32]);
}

#[test]
fn reconstruct_rejects_bad_arguments() {
    assert_eq!(array_reconstructor('x', 0, &vec![]).unwrap_err(), ArrayError::BadTypecode);
    assert_eq!(array_reconstructor('b', 22, &vec![]).unwrap_err(), ArrayError::BadFormatCode);
    assert_eq!(array_reconstructor('i', 6, &vec![1, 2, 3]).unwrap_err(), ArrayError::BadLength);
}

#[test]
fn machine_format_codes_round_trip() {
    for code in 0u8..=21 {
        let m = MachineFormatCode::try_from_u8(code).unwrap();
        assert_eq!(m.code(), code);
    }
    assert_eq!(MachineFormatCode::try_from_u8(22), Err(22));
    assert_eq!(MachineFormatCode::from_typecode('b'), Some(MachineFormatCode::Int8 { signed: true }));
    assert_eq!(MachineFormatCode::from_typecode('B'), Some(MachineFormatCode::Int8 { signed: false }));
    assert_eq!(MachineFormatCode::from_typecode('u'), Some(MachineFormatCode::Utf32 { big_endian: false }));
    assert_eq!(MachineFormatCode::from_typecode('d').unwrap().item_size(), 8);
    assert_eq!(MachineFormatCode::from_typecode('z'), None);
}

#[test]
fn byteswap_reverses_item_bytes() {
    let mut a = ints('h', &[1, 0x1234]);
    a.byteswap();
    assert_eq!(as_ints(&a), vec![256, 0x3412]);
    let mut b = ints('i', &[1]);
    b.byteswap();
    assert_eq!(as_ints(&b), vec![0x0100_0000]);
}

#[test]
fn conversion_errors() {
    assert_eq!(PyArray::new('x').unwrap_err(), ArrayError::BadTypecode);
    let mut a = PyArray::new('b').unwrap();
    assert_eq!(a.append(ArrayValue::Int(128)), Err(ArrayError::Overflow));
    assert_eq!(a.append(ArrayValue::Int(-129)), Err(ArrayError::Overflow));
    assert_eq!(a.append(ArrayValue::Char('a' as u32)), Err(ArrayError::TypeMismatch));
    assert_eq!(a.append(ArrayValue::Bits(0)), Err(ArrayError::TypeMismatch));
    let mut u = PyArray::new('u').unwrap();
    assert_eq!(u.append(ArrayValue::Char(0x110000)), Err(ArrayError::InvalidCodePoint));
    assert_eq!(u.append(ArrayValue::Int(65)), Err(ArrayError::TypeMismatch));
    let mut f = PyArray::new('f').unwrap();
    assert_eq!(f.append(ArrayValue::Bits(1 << 32)), Err(ArrayError::Overflow));
    assert_eq!(a.__len__() + u.__len__() + f.__len__(), 0);
}

#[test]
fn fromlist_is_all_or_nothing() {
    let mut a = ints('B', &[1]);
    let bad = vec![ArrayValue::Int(2), ArrayValue::Int(300), ArrayValue::Int(3)];
    assert_eq!(a.fromlist(&bad), Err(ArrayError::Overflow));
    assert_eq!(as_ints(&a), vec![1]);
    a.fromlist(&vec![ArrayValue::Int(2), ArrayValue::Int(3)]).unwrap();
    assert_eq!(as_ints(&a), vec![1, 2, 3]);
}

#[test]
fn pop_remove_index_count() {
    let mut a = ints('i', &[4, 5, 4, 6]);
    assert_eq!(a.count(ArrayValue::Int(4)), 2);
    assert_eq!(a.count(ArrayValue::Char('x' as u32)), 0);
    assert_eq!(a.index(ArrayValue::Int(4), None, None), Ok(0));
    assert_eq!(a.index(ArrayValue::Int(4), Some(1), None), Ok(2));
    assert_eq!(a.index(ArrayValue::Int(4), Some(-1), None), Err(ArrayError::NotInArray));
    assert_eq!(a.remove(ArrayValue::Int(4)), Ok(()));
    assert_eq!(as_ints(&a), vec![5, 4, 6]);
    assert_eq!(a.remove(ArrayValue::Int(9)), Err(ArrayError::NotInArray));
    assert_eq!(a.pop(0), Ok(ArrayValue::Int(5)));
    assert_eq!(a.pop(5), Err(ArrayError::IndexOutOfRange));
    assert_eq!(a.pop(-1), Ok(ArrayValue::Int(6)));
    assert_eq!(a.pop(-1), Ok(ArrayValue::Int(4)));
    assert_eq!(a.pop(-1), Err(ArrayError::EmptyPop));
}

#[test]
fn insert_clamps_position() {
    let mut a = ints('i', &[1, 2]);
    a.insert(100, ArrayValue::Int(3)).unwrap();
    a.insert(-100, ArrayValue::Int(0)).unwrap();
    a.insert(-1, ArrayValue::Int(9)).unwrap();
    assert_eq!(as_ints(&a), vec![0, 1, 2, 9, 3]);
}

#[test]
fn item_access() {
    let mut a = ints('i', &[1, 2, 3]);
    assert_eq!(a.getitem(-1), Ok(ArrayValue::Int(3)));
    assert_eq!(a.getitem(3), Err(ArrayError::IndexOutOfRange));
    assert_eq!(a.setitem(-3, ArrayValue::Int(10)), Ok(()));
    assert_eq!(a.setitem(5, ArrayValue::Int(10)), Err(ArrayError::IndexOutOfRange));
    assert_eq!(a.delitem(1), Ok(()));
    assert_eq!(as_ints(&a), vec![10, 3]);
}

#[test]
fn slices_with_steps() {
    let a = ints('i', &[0, 1, 2, 3, 4, 5, 6]);
    assert_eq!(as_ints(&a.getitem_slice(slice(None, None, Some(-2))).unwrap()), vec![6, 4, 2, 0]);
    assert_eq!(as_ints(&a.getitem_slice(slice(Some(1), Some(-1), Some(3))).unwrap()), vec![1, 4]);
    assert_eq!(a.getitem_slice(slice(None, None, Some(0))).unwrap_err(), ArrayError::ZeroStep);

    let mut b = ints('i', &[0, 1, 2, 3, 4, 5, 6]);
    b.setitem_slice(slice(None, None, Some(3)), &ints('i', &[7, 8, 9])).unwrap();
    assert_eq!(as_ints(&b), vec![7, 1, 2, 8, 4, 5, 9]);
    assert_eq!(b.setitem_slice(slice(None, None, Some(3)), &ints('i', &[1])), Err(ArrayError::SizeMismatch));
    assert_eq!(b.setitem_slice(slice(None, None, None), &ints('h', &[1])), Err(ArrayError::TypeMismatch));

    let mut c = ints('i', &[0, 1, 2, 3, 4, 5, 6]);
    c.delitem_slice(slice(Some(1), None, Some(2))).unwrap();
    assert_eq!(as_ints(&c), vec![0, 2, 4, 6]);
    c.delitem_slice(slice(None, None, Some(-1))).unwrap();
    assert_eq!(c.__len__(), 0);

    let mut d = ints('i', &[1, 2, 3]);
    d.setitem_slice(slice(Some(1), Some(1), None), &ints('i', &[7, 7])).unwrap();
    assert_eq!(as_ints(&d), vec![1, 7, 7, 2, 3]);
}

#[test]
fn concatenation_and_repetition() {
    let a = ints('i', &[1, 2]);
    let b = ints('i', &[3]);
    assert_eq!(as_ints(&a.__add__(&b).unwrap()), vec![1, 2, 3]);
    assert_eq!(a.__add__(&ints('b', &[1])).unwrap_err(), ArrayError::TypeMismatch);
    assert_eq!(as_ints(&a.__mul__(3).unwrap()), vec![1, 2, 1, 2, 1, 2]);
    assert_eq!(a.__mul__(-1).unwrap().__len__(), 0);
    let mut c = a.__copy__();
    c.__iadd__(&b).unwrap();
    c.extend(&b).unwrap();
    assert_eq!(as_ints(&c), vec![1, 2, 3, 3]);
    c.__imul__(0).unwrap();
    assert_eq!(c.__len__(), 0);
    let mut r = ints('i', &[1, 2, 3]);
    r.reverse();
    assert_eq!(as_ints(&r), vec![3, 2, 1]);
    assert_eq!(as_ints(&r.__deepcopy__()), vec![3, 2, 1]);
}

#[test]
fn constructor_seeds() {
    let src = ints('b', &[1, -2]);
    let same = PyArray::py_new(ArrayNewArgs { spec: 'b', init: Some(ArrayInit::Array(src)) }).unwrap();
    assert_eq!(as_ints(&same), vec![1, -2]);
    let src = ints('b', &[1, -2]);
    let wide = PyArray::py_new(ArrayNewArgs { spec: 'q', init: Some(ArrayInit::Array(src)) }).unwrap();
    assert_eq!(as_ints(&wide), vec![1, -2]);
    let src = ints('b', &[1, -2]);
    let err = PyArray::py_new(ArrayNewArgs { spec: 'B', init: Some(ArrayInit::Array(src)) }).unwrap_err();
    assert_eq!(err, ArrayError::Overflow);
    let text = PyArray::py_new(ArrayNewArgs { spec: 'u', init: Some(ArrayInit::Text(vec!['h', 'i'])) }).unwrap();
    assert_eq!(text.tounicode().unwrap(), vec!['h' as u32, 'i' as u32]);
    let err = PyArray::py_new(ArrayNewArgs { spec: 'i', init: Some(ArrayInit::Text(vec!['h'])) }).unwrap_err();
    assert_eq!(err, ArrayError::TypeMismatch);
    let u = PyArray::py_new(ArrayNewArgs { spec: 'u', init: Some(ArrayInit::Text(vec!['h'])) }).unwrap();
    let err = PyArray::py_new(ArrayNewArgs { spec: 'i', init: Some(ArrayInit::Array(u)) }).unwrap_err();
    assert_eq!(err, ArrayError::TypeMismatch);
    let bytes = PyArray::py_new(ArrayNewArgs { spec: 'H', init: Some(ArrayInit::Bytes(vec![1, 1])) }).unwrap();
    assert_eq!(as_ints(&bytes), vec![257]);
    let empty = PyArray::py_new(ArrayNewArgs { spec: 'd', init: None }).unwrap();
    assert_eq!((empty.__len__(), empty.typecode(), empty.itemsize()), (0, 'd', 8));
}

#[test]
fn unicode_operations() {
    let mut u = PyArray::new('u').unwrap();
    u.fromunicode(&vec!['a', 'é']).unwrap();
    assert_eq!(u.tounicode().unwrap(), vec!['a' as u32, 'é' as u32]);
    let mut i = PyArray::new('i').unwrap();
    assert_eq!(i.fromunicode(&vec!['a']), Err(ArrayError::NotUnicode));
    assert_eq!(i.tounicode(), Err(ArrayError::NotUnicode));
    let mut bad = PyArray::new('u').unwrap();
    bad.frombytes(&[0, 0, 0x11, 0]).unwrap();
    assert_eq!(bad.tounicode(), Err(ArrayError::InvalidCodePoint));
    assert_eq!(bad.getitem(0), Err(ArrayError::InvalidCodePoint));
}

#[test]
fn equality_by_items() {
    assert_eq!(ints('i', &[1, 2]).array_eq(&ints('i', &[1, 2])), Some(true));
    assert_eq!(ints('i', &[1, 2]).array_eq(&ints('q', &[1, 2])), Some(true));
    assert_eq!(ints('b', &[-1]).array_eq(&ints('B', &[255])), Some(false));
    assert_eq!(ints('i', &[1]).array_eq(&ints('i', &[1, 2])), Some(false));
    let u = PyArray::py_new(ArrayNewArgs { spec: 'u', init: Some(ArrayInit::Text(vec!['a'])) }).unwrap();
    assert_eq!(u.array_eq(&ints('i', &[97])), Some(false));
    assert_eq!(PyArray::new('f').unwrap().array_eq(&PyArray::new('f').unwrap()), None);
}

#[test]
fn short_read_keeps_bytes_and_reports_eof() {
    let mut a = PyArray::new('h').unwrap();
    assert_eq!(a.fromfile_request(-1), Err(ArrayError::NegativeCount));
    let want = a.fromfile_request(3).unwrap();
    assert_eq!(want, 6);
    assert_eq!(a.fromfile_commit(&[1, 0, 2, 0], want), Err(ArrayError::UnexpectedEof));
    assert_eq!(as_ints(&a), vec![1, 2]);
    assert_eq!(a.fromfile_commit(&[3, 0], 2), Ok(()));
    assert_eq!(a.fromfile_commit(&[3], 2), Err(ArrayError::BadLength));
    assert_eq!(as_ints(&a), vec![1, 2, 3]);
}

#[test]
fn ordering_by_items() {
    assert_eq!(ints('i', &[1, 2]).array_cmp(&ints('i', &[1, 3])), Some(Ok(Ordering::Less)));
    assert_eq!(ints('i', &[1, 2]).array_cmp(&ints('q', &[1])), Some(Ok(Ordering::Greater)));
    assert_eq!(ints('b', &[-1]).array_cmp(&ints('B', &[0])), Some(Ok(Ordering::Less)));
    assert_eq!(ints('i', &[4, 5]).array_cmp(&ints('h', &[4, 5])), Some(Ok(Ordering::Equal)));
    let u = PyArray::py_new(ArrayNewArgs { spec: 'u', init: Some(ArrayInit::Text(vec!['a'])) }).unwrap();
    assert_eq!(u.array_cmp(&ints('i', &[97])), Some(Err(ArrayError::TypeMismatch)));
    assert_eq!(ints('i', &[]).array_cmp(&u), Some(Ok(Ordering::Less)));
    assert_eq!(PyArray::new('d').unwrap().array_cmp(&ints('i', &[1])), None);
}

#[test]
fn iterator_stays_exhausted() {
    let mut a = ints('i', &[1, 2]);
    let mut it = PyArrayIter::new();
    assert_eq!(it.next(&a), Some(Ok(ArrayValue::Int(1))));
    assert_eq!(it.__reduce__(), Some(1));
    it.__setstate__(10, &a);
    assert_eq!(it.__reduce__(), Some(2));
    assert_eq!(it.next(&a), None);
    a.append(ArrayValue::Int(3)).unwrap();
    assert_eq!(it.next(&a), None);
    assert_eq!(it.__reduce__(), None);
    let mut fresh = PyArrayIter::new();
    fresh.__setstate__(2, &a);
    assert_eq!(fresh.next(&a), Some(Ok(ArrayValue::Int(3))));
}

#[test]
fn legacy_reduce_rebuilds_items() {
    for (code, values) in [('b', vec![-3i128, 100]), ('Q', vec![u64::MAX as i128, 0]), ('l', vec![i64::MIN as i128])] {
        let a = ints(code, &values);
        let (c, list) = a.__reduce__();
        let b = PyArray::py_new(ArrayNewArgs { spec: c, init: Some(ArrayInit::Values(list.unwrap())) }).unwrap();
        assert_eq!(b.raw_items(), a.raw_items());
    }
    let u = PyArray::py_new(ArrayNewArgs { spec: 'u', init: Some(ArrayInit::Text(vec!['x', 'y'])) }).unwrap();
    let (c, list) = u.__reduce__();
    assert_eq!((c, list.unwrap()), ('u', vec![ArrayValue::Char('x' as u32), ArrayValue::Char('y' as u32)]));
}

#[test]
fn wide_char_items() {
    let w = WideChar::from_char('A');
    assert_eq!(w.to_code_point(), Ok(65));
    assert_eq!(w.byteswap(), WideChar(0x4100_0000));
    assert_eq!(WideChar(0x0011_0000).to_code_point(), Err(ArrayError::InvalidCodePoint));
}

#[test]
fn membership() {
    let a = ints('h', &[3, -4]);
    assert!(a.__contains__(ArrayValue::Int(-4)));
    assert!(!a.__contains__(ArrayValue::Int(4)));
    assert!(!a.__contains__(ArrayValue::Int(1 << 20)));
    assert!(!a.__contains__(ArrayValue::Char('a' as u32)));
}

#[test]
fn single_character_items_and_format_numbers() {
    assert_eq!(WideChar::from_text(&vec!['z']), Ok(WideChar('z' as u32)));
    assert_eq!(WideChar::from_text(&vec!['a', 'b']), Err(ArrayError::TypeMismatch));
    assert_eq!(WideChar::from_text(&vec![]), Err(ArrayError::TypeMismatch));
    assert_eq!(MachineFormatCode::from_int(21), Ok(MachineFormatCode::Utf32 { big_endian: true }));
    assert_eq!(MachineFormatCode::from_int(-1), Err(ArrayError::BadFormatCode));
    assert_eq!(MachineFormatCode::from_int(22), Err(ArrayError::BadFormatCode));
    assert_eq!(MachineFormatCode::from_int(1000), Err(ArrayError::BadFormatCode));
}

#[test]
fn extend_from_values_is_all_or_nothing() {
    let mut a = ints('h', &[1]);
    assert_eq!(a.extend_values(&vec![ArrayValue::Int(2), ArrayValue::Int(1 << 20)]), Err(ArrayError::Overflow));
    assert_eq!(as_ints(&a), vec![1]);
    a.extend_values(&vec![ArrayValue::Int(2), ArrayValue::Int(-3)]).unwrap();
    assert_eq!(as_ints(&a), vec![1, 2, -3]);
}

#[test]
fn integers_round_trip_across_formats() {
    // every integer format, written by hand, rebuilt into a 64-bit signed array
    let values: [i128; 3] = [0, 1, -2];
    for code in 0u8..=13 {
        let m = MachineFormatCode::try_from_u8(code).unwrap();
        let n = m.item_size();
        let signed = code == 1 || (code >= 2 && (code - 2) % 4 >= 2);
        let big = code >= 2 && code % 2 == 1;
        let mut bytes = Vec::new();
        for &v in values.iter().filter(|&&v| signed || v >= 0) {
            let raw = if v < 0 { (v + (1i128 << (8 * n))) as u128 } else { v as u128 };
            let le: Vec<u8> = (0..n).map(|j| (raw >> (8 * j)) as u8).collect();
            if big { bytes.extend(le.iter().rev()) } else { bytes.extend(le) }
        }
        let expect: Vec<i128> = values.iter().copied().filter(|&v| signed || v >= 0).collect();
        for target in ['q', 'b', 'i'] {
            let a = array_reconstructor(target, code, &bytes).unwrap();
            assert_eq!(as_ints(&a), expect, "code {code} into {target}");
        }
    }
}
