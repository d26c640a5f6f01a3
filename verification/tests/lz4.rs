//! The array encoding, from building to reading.

use vortex_lz4::arrays::Canonical;
use vortex_lz4::arrays::Decompressed;
use vortex_lz4::arrays::PrimitiveArray;
use vortex_lz4::arrays::VarBinViewArray;
use vortex_lz4::buffer::ByteBuffer;
use vortex_lz4::codec::check_lengths;
use vortex_lz4::data::HashPart;
use vortex_lz4::dtype::DType;
use vortex_lz4::dtype::Nullability;
use vortex_lz4::dtype::PType;
use vortex_lz4::frames::compress_values;
use vortex_lz4::validity::Validity;
use vortex_lz4::validity::ValidityChild;
use vortex_lz4::views::BinaryView;
use vortex_lz4::Lz4;
use vortex_lz4::Lz4Array;
use vortex_lz4::Lz4Data;
use vortex_lz4::Lz4Error;
use vortex_lz4::Lz4FrameMetadata;
use vortex_lz4::Lz4Metadata;
use vortex_lz4::VarBinDecompressed;

fn i32_bytes(values: &[i32]) -> Vec<u8> {
    values.iter().flat_map(|v| v.to_le_bytes()).collect()
}

fn i32_array(values: &[i32], validity: Validity) -> PrimitiveArray {
    PrimitiveArray::new(PType::I32, ByteBuffer::new(i32_bytes(values)), validity)
}

fn i64_array(values: &[i64], validity: Validity) -> PrimitiveArray {
    let bytes = values.iter().flat_map(|v| v.to_le_bytes()).collect();
    PrimitiveArray::new(PType::I64, ByteBuffer::new(bytes), validity)
}

fn u32_array(values: &[u32]) -> PrimitiveArray {
    let bytes = values.iter().flat_map(|v| v.to_le_bytes()).collect();
    PrimitiveArray::new(PType::U32, ByteBuffer::new(bytes), Validity::NonNullable)
}

fn f64_array(values: &[f64]) -> PrimitiveArray {
    let bytes = values.iter().flat_map(|v| v.to_le_bytes()).collect();
    PrimitiveArray::new(PType::F64, ByteBuffer::new(bytes), Validity::NonNullable)
}

/// A column of byte strings, the longer ones in a buffer of their own each.
fn var_bin_view(rows: &[Option<&[u8]>], dtype: DType) -> VarBinViewArray {
    let mut views = Vec::new();
    let mut buffers = Vec::new();
    let mut flags = Vec::new();
    for row in rows {
        let value = row.unwrap_or(b"");
        views.push(BinaryView::make_view(value, buffers.len() as u32, 0));
        if value.len() > 12 {
            buffers.push(ByteBuffer::copy_from(value));
        }
        flags.push(row.is_some());
    }
    let validity = if dtype.is_nullable() {
        Validity::Array(flags)
    } else {
        Validity::NonNullable
    };
    VarBinViewArray { views, buffers, dtype, validity }
}

fn rows(array: &Decompressed) -> Vec<Option<Vec<u8>>> {
    (0..array.len()).map(|i| array.value_at(i).map(|v| v.to_vec())).collect()
}

fn i32_rows(array: &Lz4Array) -> Vec<Option<i32>> {
    rows(&Lz4::decompress(array).unwrap())
        .into_iter()
        .map(|row| row.map(|v| i32::from_le_bytes([v[0], v[1], v[2], v[3]])))
        .collect()
}

fn i32_at(array: &Lz4Array, index: usize) -> Option<i32> {
    Lz4::scalar_at(array, index)
        .unwrap()
        .map(|v| i32::from_le_bytes([v[0], v[1], v[2], v[3]]))
}

fn text_at(array: &Lz4Array, index: usize) -> Option<String> {
    Lz4::scalar_at(array, index)
        .unwrap()
        .map(|v| String::from_utf8(v).unwrap())
}

fn some(values: &[i32]) -> Vec<Option<i32>> {
    values.iter().map(|v| Some(*v)).collect()
}

fn mask(validity: &Validity, len: usize) -> Vec<bool> {
    validity.execute_mask(len)
}

fn bytes_of(array: &PrimitiveArray) -> Vec<Option<Vec<u8>>> {
    (0..array.len).map(|i| array.value_at(i).map(|v| v.to_vec())).collect()
}

fn words() -> [Option<&'static [u8]>; 5] {
    [
        Some(b"foo"),
        Some(b"bar"),
        None,
        Some(b"Lorem ipsum dolor sit amet"),
        Some(b"baz"),
    ]
}

#[test]
fn test_lz4_compress_decompress() {
    let data: Vec<i32> = (0..200).collect();
    let array = i32_array(&data, Validity::NonNullable);

    let compressed = Lz4::from_primitive(&array, 0).unwrap();

    // check full decompression works
    assert_eq!(i32_rows(&compressed), some(&data));

    // check slicing works
    let slice = compressed.slice(100, 105);
    for i in 0_i32..5 {
        assert_eq!(i32_at(&slice, i as usize), Some(100 + i));
    }
    assert_eq!(i32_rows(&slice), some(&[100, 101, 102, 103, 104]));

    let slice = compressed.slice(200, 200);
    assert_eq!(i32_rows(&slice), some(&[]));
}

#[test]
fn test_lz4_empty() {
    let data: Vec<i32> = vec![];
    let array = i32_array(&data, Validity::NonNullable);

    let compressed = Lz4::from_primitive(&array, 100).unwrap();

    assert_eq!(compressed.len, 0);
    assert_eq!(i32_rows(&compressed), some(&data));
}

#[test]
fn test_lz4_with_validity_and_multi_frame() {
    let data: Vec<i32> = (0..200).collect();
    let mut validity: Vec<bool> = vec![false; 200];
    validity[3] = true;
    validity[177] = true;
    let array = i32_array(&data, Validity::Array(validity));

    let compressed = Lz4::from_primitive(&array, 30).unwrap();
    assert_eq!(i32_at(&compressed, 0), None);
    assert_eq!(i32_at(&compressed, 3), Some(3));
    assert_eq!(i32_at(&compressed, 10), None);
    assert_eq!(i32_at(&compressed, 177), Some(177));

    let decompressed = match Lz4::decompress(&compressed).unwrap() {
        Decompressed::Primitive(array) => array,
        other => panic!("not primitive: {other:?}"),
    };
    let bytes = decompressed.values.as_slice();
    assert_eq!(bytes[4 * 3..4 * 4], 3_i32.to_le_bytes());
    assert_eq!(bytes[4 * 177..4 * 178], 177_i32.to_le_bytes());
    assert_eq!(
        mask(&decompressed.validity, decompressed.len),
        mask(&array.validity, decompressed.len)
    );

    // check slicing works
    let slice = compressed.slice(176, 179);
    let primitive = match Lz4::decompress(&slice).unwrap() {
        Decompressed::Primitive(array) => array,
        other => panic!("not primitive: {other:?}"),
    };
    assert_eq!(primitive.value_at(1).unwrap(), 177_i32.to_le_bytes());
    assert_eq!(mask(&primitive.validity, primitive.len), vec![false, true, false]);
}

#[test]
fn test_lz4_multi_frame_roundtrip() {
    let data: Vec<i32> = (0..200).collect();
    let array = i32_array(&data, Validity::NonNullable);

    let compressed = Lz4::from_primitive(&array, 16).unwrap();
    assert!(compressed.data.metadata.frames.len() > 1);
    assert_eq!(i32_at(&compressed, 0), Some(0));
    assert_eq!(i32_at(&compressed, 199), Some(199));

    assert_eq!(i32_rows(&compressed), some(&data));

    // check slicing works
    let slice = compressed.slice(176, 179);
    assert_eq!(i32_rows(&slice), some(&[176, 177, 178]));
}

#[test]
fn test_validity_vtable() {
    let mask_bools = vec![false, true, true, false, true];
    let array = i32_array(&[0, 1, 2, 3, 4], Validity::Array(mask_bools.clone()));
    let compressed = Lz4::from_primitive(&array, 0).unwrap();
    assert_eq!(mask(&Lz4::validity(&compressed), compressed.len), mask_bools);
    let sliced = compressed.slice(1, 4);
    assert_eq!(mask(&Lz4::validity(&sliced), sliced.len), vec![true, true, false]);
}

#[test]
fn test_lz4_var_bin_view() {
    let array = var_bin_view(&words(), DType::Utf8(Nullability::Nullable));

    let compressed = Lz4::from_var_bin_view(&array, 3).unwrap();
    assert_eq!(text_at(&compressed, 0).as_deref(), Some("foo"));
    assert_eq!(text_at(&compressed, 1).as_deref(), Some("bar"));
    assert_eq!(text_at(&compressed, 2), None);
    assert_eq!(text_at(&compressed, 3).as_deref(), Some("Lorem ipsum dolor sit amet"));
    assert_eq!(text_at(&compressed, 4).as_deref(), Some("baz"));

    let sliced = compressed.slice(1, 4);
    assert_eq!(text_at(&sliced, 0).as_deref(), Some("bar"));
    assert_eq!(text_at(&sliced, 1), None);
    assert_eq!(text_at(&sliced, 2).as_deref(), Some("Lorem ipsum dolor sit amet"));
}

#[test]
fn test_lz4_decompress_var_bin_view() {
    let array = var_bin_view(&words(), DType::Utf8(Nullability::Nullable));

    let compressed = Lz4::from_var_bin_view(&array, 3).unwrap();

    let decompressed = Lz4::decompress(&compressed).unwrap();
    assert!(matches!(decompressed, Decompressed::VarBinView(_)));
    assert_eq!(decompressed.value_at(0), Some(b"foo".as_slice()));
    assert_eq!(decompressed.value_at(1), Some(b"bar".as_slice()));
    assert_eq!(decompressed.value_at(2), None);
    assert_eq!(decompressed.value_at(3), Some(b"Lorem ipsum dolor sit amet".as_slice()));
    assert_eq!(decompressed.value_at(4), Some(b"baz".as_slice()));
}

#[test]
fn test_sliced_array_children() {
    let data: Vec<i32> = (0..10).collect();
    let flags = (0..10).map(|v| v != 5).collect::<Vec<bool>>();
    let compressed = Lz4::from_primitive(&i32_array(&data, Validity::Array(flags.clone())), 100).unwrap();
    let sliced = compressed.slice(0, 4);
    let children = sliced.children();
    // the validity stays that of the whole column
    assert_eq!(children.len(), 1);
    assert!(matches!(&children[0], ValidityChild::Flags(f) if *f == flags));
}

/// Tests that each beginning of a frame in LZ4 matches
/// the buffer alignment when compressing primitive arrays.
#[test]
fn test_lz4_frame_start_buffer_alignment() {
    let data = vec![0u8; 2];
    // u8 array now has a 8-byte alignment.
    let array = PrimitiveArray::new(PType::U8, ByteBuffer::copy_from(&data), Validity::NonNullable)
        .with_alignment(8);
    let compressed = Lz4::from_primitive(&array, 1);

    assert!(compressed.is_ok());
}

fn check_consistency(array: &PrimitiveArray) {
    let compressed = Lz4::from_primitive(array, 0).unwrap();
    let expected = bytes_of(array);
    assert_eq!(compressed.dtype, array.dtype());
    assert_eq!(rows(&Lz4::decompress(&compressed).unwrap()), expected);
    for i in 0..array.len {
        assert_eq!(Lz4::scalar_at(&compressed, i).unwrap(), expected[i]);
    }
    let n = array.len;
    for (start, stop) in [(0, n), (0, n / 2), (n / 2, n), (n / 3, n - n / 3), (n, n)] {
        let slice = compressed.slice(start, stop);
        assert_eq!(rows(&Lz4::decompress(&slice).unwrap()), expected[start..stop]);
        let flags: Vec<bool> = expected[start..stop].iter().map(|v| v.is_some()).collect();
        assert_eq!(mask(&Lz4::validity(&slice), stop - start), flags);
    }
}

#[test]
fn consistency_i32() {
    check_consistency(&i32_array(&[100, 200, 300, 400, 500], Validity::NonNullable));
}

#[test]
fn consistency_f64() {
    check_consistency(&f64_array(&[1.1, 2.2, 3.3, 4.4, 5.5]));
}

#[test]
fn consistency_u32() {
    check_consistency(&u32_array(&[10, 20, 30, 40, 50]));
}

#[test]
fn consistency_nullable_i64() {
    check_consistency(&i64_array(
        &[1000, 0, 3000, 4000, 0],
        Validity::Array(vec![true, false, true, true, false]),
    ));
}

#[test]
fn consistency_single() {
    check_consistency(&i64_array(&[42], Validity::NonNullable));
}

#[test]
fn consistency_large() {
    check_consistency(&u32_array(&(0..1000).collect::<Vec<u32>>()));
}

#[test]
fn consistency_all_same() {
    check_consistency(&i32_array(&[42; 100], Validity::NonNullable));
}

#[test]
fn consistency_negative() {
    check_consistency(&i32_array(&[-100, -50, 0, 50, 100], Validity::NonNullable));
}

#[test]
fn every_slice_of_every_framing_reads_back() {
    let data: Vec<i32> = (0..13).map(|v| v * 7 - 20).collect();
    let flags: Vec<bool> = (0..13).map(|v| v % 4 != 1).collect();
    let array = i32_array(&data, Validity::Array(flags));
    let expected = bytes_of(&array);
    for values_per_frame in 0..12 {
        let compressed = Lz4::from_primitive(&array, values_per_frame).unwrap();
        for start in 0..=13 {
            for stop in start..=13 {
                let slice = compressed.slice(start, stop);
                assert_eq!(rows(&Lz4::decompress(&slice).unwrap()), expected[start..stop]);
            }
        }
    }
}

#[test]
fn every_slice_of_strings_reads_back() {
    let strings: Vec<Option<Vec<u8>>> = (0..11)
        .map(|i| if i % 3 == 2 { None } else { Some(vec![b'a' + i as u8; 3 * i]) })
        .collect();
    let borrowed: Vec<Option<&[u8]>> = strings.iter().map(|s| s.as_deref()).collect();
    let array = var_bin_view(&borrowed, DType::Binary(Nullability::Nullable));
    for values_per_frame in 0..9 {
        let compressed = Lz4::from_var_bin_view(&array, values_per_frame).unwrap();
        for start in 0..=11 {
            for stop in start..=11 {
                let slice = compressed.slice(start, stop);
                assert_eq!(rows(&Lz4::decompress(&slice).unwrap()), strings[start..stop]);
            }
        }
    }
}

#[test]
fn frames_hold_the_values_their_metadata_says() {
    let data: Vec<i32> = (0..10).collect();
    let compressed = Lz4::from_primitive(&i32_array(&data, Validity::NonNullable), 4).unwrap();
    let sizes: Vec<(u64, u64)> = compressed
        .data
        .metadata
        .frames
        .iter()
        .map(|f| (f.uncompressed_size, f.n_values))
        .collect();
    assert_eq!(sizes, vec![(16, 4), (16, 4), (8, 2)]);
    assert_eq!(compressed.data.frames.len(), 3);
}

#[test]
fn over_aligned_frames_hold_more_values() {
    let array = PrimitiveArray::new(
        PType::U8,
        ByteBuffer::new((0..20).collect()),
        Validity::NonNullable,
    )
    .with_alignment(8);
    let compressed = Lz4::from_primitive(&array, 3).unwrap();
    let sizes: Vec<(u64, u64)> = compressed
        .data
        .metadata
        .frames
        .iter()
        .map(|f| (f.uncompressed_size, f.n_values))
        .collect();
    // three values are rounded up to the eight that keep the alignment
    assert_eq!(sizes, vec![(8, 8), (8, 8), (4, 4)]);
    let slice = compressed.slice(7, 17);
    let expected: Vec<Option<Vec<u8>>> = (7..17).map(|v| Some(vec![v])).collect();
    assert_eq!(rows(&Lz4::decompress(&slice).unwrap()), expected);
}

#[test]
fn only_the_needed_frames_are_decompressed() {
    let data: Vec<i32> = (0..40).collect();
    let compressed = Lz4::from_primitive(&i32_array(&data, Validity::NonNullable), 10).unwrap();
    let plan = compressed
        .slice(12, 25)
        .data
        .plan_frames(4, &Validity::NonNullable)
        .unwrap();
    assert_eq!((plan.first, plan.end), (1, 3));
    assert_eq!(plan.total_uncompressed, 80);
    assert_eq!(plan.n_skipped_values, 10);

    // a broken frame that no row of the slice needs does no harm
    let mut broken = compressed.slice(12, 25);
    broken.data.frames[0] = ByteBuffer::new(vec![]);
    broken.data.frames[3] = ByteBuffer::new(vec![]);
    assert_eq!(i32_rows(&broken), some(&(12..25).collect::<Vec<i32>>()));
}

#[test]
fn frames_without_a_value_count_are_counted_by_their_size() {
    let data: Vec<i32> = (0..20).collect();
    let mut compressed = Lz4::from_primitive(&i32_array(&data, Validity::NonNullable), 8).unwrap();
    for frame in &mut compressed.data.metadata.frames {
        frame.n_values = 0;
    }
    assert_eq!(i32_rows(&compressed.slice(7, 18)), some(&(7..18).collect::<Vec<i32>>()));
}

#[test]
fn var_bin_window_holds_the_values_of_the_slice() {
    let array = var_bin_view(&words(), DType::Utf8(Nullability::Nullable));
    let compressed = Lz4::from_var_bin_view(&array, 3).unwrap();
    let mut out = vec![1, 2, 3];
    let window = Lz4::decompress_var_bin_into(&compressed.slice(1, 4), &mut out).unwrap();
    assert_eq!(window, VarBinDecompressed { skip_values: 1, n_values: 2 });
    let mut expected = Vec::new();
    for value in [b"foo".as_slice(), b"bar", b"Lorem ipsum dolor sit amet"] {
        expected.extend_from_slice(&(value.len() as u32).to_le_bytes());
        expected.extend_from_slice(value);
    }
    assert_eq!(out, expected);

    // the last frame alone
    let window = Lz4::decompress_var_bin_into(&compressed.slice(4, 5), &mut out).unwrap();
    assert_eq!(window, VarBinDecompressed { skip_values: 0, n_values: 1 });
    assert_eq!(out, b"\x03\x00\x00\x00baz");

    assert_eq!(
        Lz4::checked_decompress_var_bin_into(&compressed.slice(4, 5), &mut out),
        Some(Ok(VarBinDecompressed { skip_values: 0, n_values: 1 }))
    );
}

#[test]
fn slices_without_a_value_are_null() {
    let array = var_bin_view(&words(), DType::Utf8(Nullability::Nullable));
    let compressed = Lz4::from_var_bin_view(&array, 3).unwrap();
    let nulls = Lz4::decompress(&compressed.slice(2, 3)).unwrap();
    assert!(matches!(
        nulls,
        Decompressed::Null { dtype: DType::Utf8(Nullability::Nullable), len: 1 }
    ));

    let all_null = VarBinViewArray {
        views: vec![BinaryView::zeroed(); 3],
        buffers: vec![],
        dtype: DType::Binary(Nullability::Nullable),
        validity: Validity::AllInvalid,
    };
    let compressed = Lz4::from_var_bin_view(&all_null, 2).unwrap();
    assert_eq!(compressed.data.frames.len(), 0);
    assert_eq!(rows(&Lz4::decompress(&compressed).unwrap()), vec![None, None, None]);
    assert!(matches!(
        compressed.children()[..],
        [ValidityChild::Constant { value: false, len: 3 }]
    ));
}

#[test]
fn all_valid_is_kept_without_a_child() {
    let array = i32_array(&[1, 2, 3], Validity::AllValid);
    let compressed = Lz4::from_primitive(&array, 0).unwrap();
    assert_eq!(compressed.dtype, DType::Primitive(PType::I32, Nullability::Nullable));
    assert_eq!(compressed.children().len(), 0);
    let decompressed = Lz4::decompress(&compressed).unwrap();
    assert_eq!(decompressed.dtype(), compressed.dtype);
    assert!(matches!(
        decompressed,
        Decompressed::Primitive(PrimitiveArray { validity: Validity::AllValid, .. })
    ));
}

#[test]
fn the_type_decides_the_validity_of_the_result() {
    let array = i32_array(&[1, 2, 3], Validity::AllValid);
    let mut compressed = Lz4::from_primitive(&array, 0).unwrap();
    compressed.dtype = DType::Primitive(PType::I32, Nullability::NonNullable);
    assert!(matches!(
        Lz4::decompress(&compressed).unwrap(),
        Decompressed::Primitive(PrimitiveArray { validity: Validity::NonNullable, .. })
    ));

    // nulls that the type does not admit
    let array = i32_array(&[1, 2, 3], Validity::Array(vec![true, false, true]));
    let mut compressed = Lz4::from_primitive(&array, 0).unwrap();
    compressed.dtype = DType::Primitive(PType::I32, Nullability::NonNullable);
    assert!(Lz4::checked_decompress(&compressed).is_none());
}

#[test]
fn slicing_a_slice_is_slicing_once() {
    let data: Vec<i32> = (0..50).collect();
    let compressed = Lz4::from_primitive(&i32_array(&data, Validity::NonNullable), 7).unwrap();
    let twice = compressed.slice(10, 40).slice(5, 12);
    let once = compressed.slice(15, 22);
    assert!(twice.data.array_eq(&once.data));
    assert_eq!((twice.data.slice_start(), twice.data.slice_stop()), (15, 22));
    assert_eq!(twice.data.unsliced_n_rows(), 50);
    assert_eq!(twice.data.len(), 7);
    assert!(!twice.data.is_empty());
    assert!(compressed.slice(9, 9).data.is_empty());
    assert_eq!(i32_rows(&twice), some(&(15..22).collect::<Vec<i32>>()));
}

#[test]
fn serialized_arrays_read_back() {
    let flags = vec![true, false, true, true, true];
    let array = i32_array(&[5, 0, 7, 8, 9], Validity::Array(flags));
    let compressed = Lz4::from_primitive(&array, 2).unwrap();
    let metadata = Lz4::serialize(&compressed).unwrap().unwrap();
    let buffers: Vec<ByteBuffer> =
        (0..Lz4::nbuffers(&compressed)).map(|i| Lz4::buffer(&compressed, i)).collect();
    let read = Lz4::deserialize(
        &compressed.dtype,
        compressed.len,
        &metadata,
        &buffers,
        &compressed.children(),
    )
    .unwrap();
    assert_eq!(
        Lz4::validate(&read.data, &read.dtype, read.len, &read.validity_slot),
        Ok(())
    );
    assert!(read.data.array_eq(&compressed.data));
    assert_eq!(read.data.metadata.frames, compressed.data.metadata.frames);
    assert_eq!(i32_rows(&read), vec![Some(5), None, Some(7), Some(8), Some(9)]);

    // no child: as many values as rows
    let plain = Lz4::deserialize(
        &DType::Primitive(PType::I32, Nullability::NonNullable),
        4,
        &metadata,
        &buffers,
        &vec![],
    )
    .unwrap();
    assert_eq!(i32_rows(&plain), some(&[5, 7, 8, 9]));
}

#[test]
fn deserializing_refuses_bad_metadata_and_too_many_children() {
    let dtype = DType::Utf8(Nullability::NonNullable);
    let child = ValidityChild::Constant { value: true, len: 0 };
    assert_eq!(
        Lz4::deserialize(&dtype, 0, &[0x0a], &vec![], &vec![child.clone(), child.clone()]).err(),
        Some(Lz4Error::InvalidMetadata)
    );
    assert_eq!(
        Lz4::deserialize(&dtype, 0, &[], &vec![], &vec![child.clone(), child]).err(),
        Some(Lz4Error::UnexpectedChildren { children: 2 })
    );
}

#[test]
fn new_frames_replace_the_old_ones() {
    let array = i32_array(&[1, 2, 3], Validity::NonNullable);
    let other = Lz4::from_primitive(&i32_array(&[4, 5, 6], Validity::NonNullable), 0).unwrap();
    let compressed = Lz4::from_primitive(&array, 0).unwrap();
    let replaced = Lz4::with_buffers(&compressed, &other.data.frames);
    assert_eq!(i32_rows(&replaced), some(&[4, 5, 6]));
    assert!(!replaced.data.array_eq(&compressed.data));
}

#[test]
fn malformed_frames_are_an_error() {
    let compressed = Lz4::from_primitive(&i32_array(&[1; 100], Validity::NonNullable), 0).unwrap();
    let broken = Lz4::with_buffers(&compressed, &vec![ByteBuffer::new(vec![])]);
    assert_eq!(Lz4::decompress(&broken).err(), Some(Lz4Error::Decompress));
    assert!(matches!(Lz4::checked_decompress(&broken), Some(Err(Lz4Error::Decompress))));
    assert_eq!(Lz4::scalar_at(&broken, 5).err(), Some(Lz4Error::Decompress));
    let mut out = Vec::new();
    assert_eq!(
        Lz4::decompress_var_bin_into(&broken, &mut out).err(),
        Some(Lz4Error::Decompress)
    );
}

#[test]
fn frames_of_another_size_are_found() {
    let mut compressed =
        Lz4::from_primitive(&i32_array(&[1, 2, 3, 4], Validity::NonNullable), 0).unwrap();
    compressed.data.metadata.frames[0].uncompressed_size = 20;
    assert!(Lz4::checked_decompress(&compressed).is_none());
    assert!(Lz4::checked_scalar_at(&compressed, 0).is_none());
    let mut out = vec![9];
    assert_eq!(Lz4::checked_decompress_var_bin_into(&compressed, &mut out), None);
    assert_eq!(out, vec![9]);

    // sizes that no machine has room for
    compressed.data.metadata.frames[0].uncompressed_size = u64::MAX;
    assert!(Lz4::checked_decompress(&compressed).is_none());
}

#[test]
fn intact_frames_pass_the_checks() {
    let compressed =
        Lz4::from_primitive(&i32_array(&[1, 2, 3, 4], Validity::NonNullable), 3).unwrap();
    let decompressed = Lz4::checked_decompress(&compressed).unwrap().unwrap();
    assert_eq!(rows(&decompressed).len(), 4);
    assert_eq!(
        Lz4::checked_scalar_at(&compressed, 3).unwrap().unwrap(),
        Some(4_i32.to_le_bytes().to_vec())
    );
}

#[test]
fn validate_names_the_first_defect() {
    let dtype = DType::Binary(Nullability::Nullable);
    let data = |n_rows, start, stop| {
        let mut d = Lz4Data::new(vec![], Lz4Metadata { frames: vec![] }, n_rows);
        d.slice_start = start;
        d.slice_stop = stop;
        d
    };
    let fine = data(5, 1, 4);
    assert_eq!(fine.validate(&dtype, 3, &Validity::AllValid), Ok(()));
    assert_eq!(
        fine.validate(&DType::Other(Nullability::Nullable), 3, &Validity::AllValid),
        Err(Lz4Error::UnsupportedDType)
    );
    assert_eq!(
        data(5, 4, 1).validate(&dtype, 3, &Validity::AllValid),
        Err(Lz4Error::InvalidSliceRange { start: 4, stop: 1 })
    );
    assert_eq!(
        data(5, 1, 6).validate(&dtype, 5, &Validity::AllValid),
        Err(Lz4Error::SliceStopExceedsRows { stop: 6, n_rows: 5 })
    );
    assert_eq!(
        fine.validate(&dtype, 2, &Validity::AllValid),
        Err(Lz4Error::SliceLengthMismatch { slice_len: 3, len: 2 })
    );
    assert_eq!(
        fine.validate(&dtype, 3, &Validity::Array(vec![true; 3])),
        Err(Lz4Error::ValidityLengthMismatch { validity_len: 3, n_rows: 5 })
    );
    let mut extra = data(5, 1, 4);
    extra.metadata.frames.push(Lz4FrameMetadata { uncompressed_size: 1, n_values: 1 });
    assert_eq!(
        extra.validate(&dtype, 3, &Validity::AllValid),
        Err(Lz4Error::FrameCountMismatch { frames: 0, metadata_frames: 1 })
    );
    assert_eq!(
        Lz4::try_new(dtype, extra, Validity::AllValid).err(),
        Some(Lz4Error::FrameCountMismatch { frames: 0, metadata_frames: 1 })
    );
}

#[test]
fn canonical_columns_are_compressed_or_refused() {
    let primitive = Canonical::Primitive(i32_array(&[1, 2], Validity::NonNullable));
    assert_eq!(Lz4Data::from_canonical(&primitive, 1).unwrap().unwrap().frames.len(), 2);
    let strings = Canonical::VarBinView(var_bin_view(
        &[Some(b"a")],
        DType::Binary(Nullability::NonNullable),
    ));
    assert_eq!(Lz4Data::from_array(strings, 0).unwrap().frames.len(), 1);
    let other = Canonical::Other(DType::Other(Nullability::NonNullable));
    assert!(Lz4Data::from_canonical(&other, 0).unwrap().is_none());
    assert_eq!(Lz4Data::from_array(other, 0).err(), Some(Lz4Error::UnsupportedArray));
}

#[test]
fn names_and_parts() {
    let compressed =
        Lz4::from_primitive(&i32_array(&[1, 2, 3, 4], Validity::NonNullable), 3).unwrap();
    assert_eq!(Lz4::id(), "vortex.lz4");
    assert_eq!(Lz4::buffer_name(&compressed, 0).as_deref(), Some("frame_0"));
    assert_eq!(Lz4::buffer_name(&compressed, 1207).as_deref(), Some("frame_1207"));
    assert_eq!(Lz4::slot_name(&compressed, 0), "validity");
    let slice = compressed.slice(1, 3);
    assert_eq!(slice.data.display(), "nrows: 4, slice: 1..3");
    let parts = slice.data.into_parts(Validity::NonNullable);
    assert_eq!((parts.n_rows, parts.slice_start, parts.slice_stop), (4, 1, 3));
    assert_eq!(parts.frames.len(), 2);
    assert_eq!(parts.metadata.frames.len(), 2);
}

#[test]
fn an_empty_column_takes_any_frame_size() {
    let array = i32_array(&[], Validity::NonNullable);
    for values_per_frame in [0, 1, 100] {
        let data = Lz4Data::from_primitive(&array, values_per_frame).unwrap();
        assert_eq!(data.len(), 0);
        let compressed = Lz4::from_primitive(&array, values_per_frame).unwrap();
        assert_eq!(i32_rows(&compressed), some(&[]));
    }
}

#[test]
fn a_column_of_nulls_takes_any_frame_size() {
    let array = var_bin_view(&[None, None], DType::Utf8(Nullability::Nullable));
    for values_per_frame in [0, 1, 100] {
        let data = Lz4Data::from_var_bin_view(&array, values_per_frame).unwrap();
        assert_eq!(data.len(), 2);
        let compressed = Lz4::from_var_bin_view(&array, values_per_frame).unwrap();
        assert_eq!(rows(&Lz4::decompress(&compressed).unwrap()), vec![None, None]);
    }
    let array = i32_array(&[0, 0], Validity::AllInvalid);
    let compressed = Lz4::from_primitive(&array, 0).unwrap();
    assert_eq!(i32_rows(&compressed), vec![None, None]);
}

fn counted(bytes: &[u8], starts: &[usize], values_per_frame: usize, n_values: usize) -> Vec<(u64, u64)> {
    let frames = compress_values(
        &ByteBuffer::copy_from(bytes),
        &starts.to_vec(),
        values_per_frame,
        n_values,
    )
    .unwrap();
    assert_eq!(frames.frames.len(), starts.len());
    frames.frame_metas.iter().map(|m| (m.uncompressed_size, m.n_values)).collect()
}

#[test]
fn frames_count_the_values_that_are_left() {
    let bytes = [7; 10];
    assert_eq!(counted(&bytes, &[0, 4, 8], 2, 5), vec![(4, 2), (4, 2), (2, 1)]);
    // none is left for the last frame
    assert_eq!(counted(&bytes, &[0, 4, 8], 2, 4), vec![(4, 2), (4, 2), (2, 0)]);
    // no value goes into any frame
    assert_eq!(counted(&bytes, &[0, 4], 0, 5), vec![(4, 0), (6, 0)]);
    assert_eq!(counted(&bytes, &[0, 4], 0, 0), vec![(4, 0), (6, 0)]);
    assert_eq!(counted(&bytes, &[], 0, 0), vec![]);
}

#[test]
fn rows_and_slices_of_uneven_frames_are_those_of_the_whole() {
    let mut frames = Vec::new();
    let mut metas = Vec::new();
    for run in [&[1, 2, 3][..], &[4], &[5, 6]] {
        let data = Lz4Data::from_primitive(&i32_array(run, Validity::NonNullable), 0).unwrap();
        frames.extend(data.frames);
        metas.extend(data.metadata.frames);
    }
    let flags = vec![true, false, true, true, true, false, true, true];
    let data = Lz4Data::new(frames, Lz4Metadata { frames: metas }, 8);
    let dtype = DType::Primitive(PType::I32, Nullability::Nullable);
    let array = Lz4::try_new(dtype, data, Validity::Array(flags.clone())).unwrap();
    let whole = i32_rows(&array);
    assert_eq!(
        whole,
        vec![Some(1), None, Some(2), Some(3), Some(4), None, Some(5), Some(6)]
    );
    for start in 0..8 {
        assert_eq!(i32_at(&array, start), whole[start]);
        assert_eq!(whole[start].is_some(), flags[start]);
        for stop in start..=8 {
            assert_eq!(i32_rows(&array.slice(start, stop)), whole[start..stop]);
        }
    }
}

fn hashed(data: &Lz4Data) -> Vec<Vec<u8>> {
    data.hash_parts()
        .iter()
        .map(|part| match part {
            HashPart::Bytes(bytes) => bytes.as_slice().to_vec(),
            HashPart::Number(n) => n.to_le_bytes().to_vec(),
        })
        .collect()
}

#[test]
fn equal_columns_hash_alike() {
    let array = i32_array(&[1, 2, 3, 4, 5], Validity::NonNullable);
    let a = Lz4Data::from_primitive(&array, 2).unwrap().with_slice(1, 4);
    let b = a.clone();
    assert!(a.array_eq(&b));
    assert_eq!(hashed(&a), hashed(&b));
    let parts = hashed(&a);
    assert_eq!(parts.len(), 6);
    assert_eq!(parts[0], a.frames[0].as_slice());
    assert_eq!(parts[3..], [5_usize, 1, 4].map(|n| n.to_le_bytes().to_vec()));
    let c = a.with_slice(0, 1);
    assert!(!a.array_eq(&c));
    assert_ne!(hashed(&a), hashed(&c));
}

#[test]
fn columns_compare_and_hash_under_another_accuracy() {
    let array = i32_array(&[1, 2, 3], Validity::NonNullable);
    let a = Lz4Data::from_primitive(&array, 2).unwrap();
    let b = Lz4Data::from_primitive(&array, 2).unwrap();
    let one = Lz4Data::from_primitive(&array, 0).unwrap();
    assert!(a.array_eq_by(&b, &vec![true, true]));
    assert!(!a.array_eq_by(&b, &vec![true, false]));
    assert!(!a.array_eq_by(&b.with_slice(0, 2), &vec![true, true]));
    assert!(!a.array_eq_by(&one, &vec![]));
    let fed = vec![ByteBuffer::new(vec![1]), ByteBuffer::new(vec![2])];
    assert_eq!(a.hash_parts_by(&fed).len(), 5);
    assert!(matches!(&a.hash_parts_by(&fed)[1], HashPart::Bytes(bytes) if bytes.as_slice() == [2]));
    assert!(matches!(a.hash_parts_by(&fed)[4], HashPart::Number(3)));
}

#[test]
fn lengths_are_bounded_by_runs_of_full_bytes() {
    assert!(check_lengths(&[255; 100], 1000));
    assert!(!check_lengths(&[], usize::MAX - 272));
    assert!(check_lengths(&[], usize::MAX - 273));
    // one full byte spells 255 more
    assert!(!check_lengths(&[255], usize::MAX - 273));
    assert!(check_lengths(&[255], usize::MAX - 273 - 255));
    assert!(check_lengths(&[255, 0, 255, 0], usize::MAX - 273 - 255));
    assert!(!check_lengths(&[0, 255, 255], usize::MAX - 273 - 255));
}
