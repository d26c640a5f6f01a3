//! Views of length-prefixed streams.

use vortex_lz4::buffer::ByteBuffer;
use vortex_lz4::reconstruct_views;
use vortex_lz4::views::checked_reconstruct_views;
use vortex_lz4::views::BinaryView;

/// Build an LZ4-style interleaved buffer: [u32-LE length][string bytes] repeated.
fn make_interleaved(strings: &[&[u8]]) -> ByteBuffer {
    let mut buf = Vec::new();
    for s in strings {
        let len = s.len() as u32;
        buf.extend_from_slice(&len.to_le_bytes());
        buf.extend_from_slice(s);
    }
    ByteBuffer::copy_from(buf.as_slice())
}

#[test]
fn test_reconstruct_views_no_split() {
    let strings: &[&[u8]] = &[b"hello", b"world"];
    let buf = make_interleaved(strings);
    let (buffers, views) = reconstruct_views(&buf, 1024);

    assert_eq!(buffers.len(), 1);
    assert_eq!(views.len(), 2);
    // Each entry: [u32 len (4 bytes)][data], so offsets are 4 and 4+5+4=13
    assert_eq!(views[0], BinaryView::make_view(b"hello", 0, 4));
    assert_eq!(views[1], BinaryView::make_view(b"world", 0, 13));
}

#[test]
fn test_reconstruct_views_split_across_segments() {
    // "aaaaaaaaaaaaa" (13 bytes) and "bbbbbbbbbbbbb" (13 bytes).
    // Each entry occupies 4 (length prefix) + 13 (data) = 17 bytes.
    // With max_buffer_len=20, the second entry's data (offset 4+13+4=21) exceeds the limit,
    // so it rolls into a second segment.
    let strings: &[&[u8]] = &[b"aaaaaaaaaaaaa", b"bbbbbbbbbbbbb"];
    let buf = make_interleaved(strings);
    let (buffers, views) = reconstruct_views(&buf, 20);

    assert_eq!(buffers.len(), 2);
    assert_eq!(views.len(), 2);
    assert_eq!(views[0], BinaryView::make_view(b"aaaaaaaaaaaaa", 0, 4));
    // Second entry starts a new segment at byte 17 (the length prefix), so local offset = 4.
    assert_eq!(views[1], BinaryView::make_view(b"bbbbbbbbbbbbb", 1, 4));
}

#[test]
fn views_resolve_to_the_values_of_the_stream() {
    let strings: Vec<Vec<u8>> = (0..40).map(|i| vec![i as u8; (i * 5) % 23]).collect();
    let borrowed: Vec<&[u8]> = strings.iter().map(|s| s.as_slice()).collect();
    let buf = make_interleaved(&borrowed);
    for limit in [0, 1, 17, 30, 64, 1024] {
        let (buffers, views) = reconstruct_views(&buf, limit);
        for (view, expected) in views.iter().zip(&strings) {
            assert_eq!(view.value(&buffers), expected.as_slice());
        }
        // the segments are the stream
        let joined: Vec<u8> = buffers.iter().flat_map(|b| b.as_slice().to_vec()).collect();
        assert_eq!(joined, buf.as_slice());
    }
}

#[test]
fn an_empty_stream_has_no_segment() {
    let (buffers, views) = reconstruct_views(&ByteBuffer::new(vec![]), 1024);
    assert_eq!(buffers.len(), 0);
    assert_eq!(views.len(), 0);
}

#[test]
fn streams_that_end_within_a_value_are_found() {
    assert!(checked_reconstruct_views(&ByteBuffer::new(vec![1, 0, 0]), 1024).is_none());
    assert!(checked_reconstruct_views(&ByteBuffer::new(vec![2, 0, 0, 0, 7]), 1024).is_none());
    assert!(checked_reconstruct_views(&ByteBuffer::new(vec![1, 0, 0, 0, 7]), 1024).is_some());
}

#[test]
fn short_values_stand_in_the_view() {
    let view = BinaryView::make_view(b"twelve bytes", 3, 9);
    assert_eq!(view, BinaryView::Inlined { size: 12, data: *b"twelve bytes" });
    let view = BinaryView::make_view(b"thirteen byte", 3, 9);
    assert_eq!(
        view,
        BinaryView::Ref { size: 13, prefix: *b"thir", buffer_index: 3, offset: 9 }
    );
    assert_eq!(BinaryView::zeroed(), BinaryView::Inlined { size: 0, data: [0; 12] });
}
