//! Serialized frame metadata.

use vortex_lz4::Lz4Error;
use vortex_lz4::Lz4FrameMetadata;
use vortex_lz4::Lz4Metadata;

fn frame(uncompressed_size: u64, n_values: u64) -> Lz4FrameMetadata {
    Lz4FrameMetadata { uncompressed_size, n_values }
}

#[test]
fn metadata_reads_back() {
    for frames in [
        vec![],
        vec![frame(0, 0)],
        vec![frame(1, 0), frame(0, 1)],
        vec![frame(u64::MAX, u64::MAX), frame(127, 128), frame(300, 16384)],
    ] {
        let metadata = Lz4Metadata { frames };
        let read = Lz4Metadata::decode(&metadata.encode_to_vec()).unwrap();
        assert_eq!(read.frames, metadata.frames);
    }
}

#[test]
fn metadata_has_this_form() {
    let metadata = Lz4Metadata { frames: vec![frame(300, 2), frame(0, 0)] };
    assert_eq!(
        metadata.encode_to_vec(),
        [0x0a, 5, 0x08, 0xac, 0x02, 0x10, 2, 0x0a, 0]
    );
    assert_eq!(frame(0, 7).encode_to_vec(), [0x10, 7]);
}

#[test]
fn unknown_fields_are_skipped() {
    // a varint field 5, a 64-bit field 3, and a group 4 with a 32-bit field inside
    let bytes = [
        0x28, 0x96, 0x01, //
        0x19, 1, 2, 3, 4, 5, 6, 7, 8, //
        0x23, 0x0d, 1, 2, 3, 4, 0x24, //
        0x0a, 4, 0x08, 9, 0x10, 3, //
        0x2a, 2, 0xff, 0xff,
    ];
    assert_eq!(Lz4Metadata::decode(&bytes).unwrap().frames, vec![frame(9, 3)]);
    // inside a frame, too
    assert_eq!(
        Lz4FrameMetadata::decode(&[0x18, 1, 0x08, 9, 0x1a, 1, 0]).unwrap(),
        frame(9, 0)
    );
}

#[test]
fn the_last_of_a_repeated_field_counts() {
    assert_eq!(
        Lz4FrameMetadata::decode(&[0x08, 1, 0x10, 2, 0x08, 3]).unwrap(),
        frame(3, 2)
    );
}

#[test]
fn malformed_metadata_is_refused() {
    for bytes in [
        &[0x0a][..],
        &[0x0a, 2, 0x08],
        &[0x0a, 1, 0x08],
        &[0x08, 1],
        &[0x00, 1],
        &[0x0f],
        &[0x80],
        &[0x0a, 3, 0x09, 1, 2],
        &[0x2a, 5, 1],
        &[0x24],
        &[0xff, 0xff, 0xff, 0xff, 0xff, 0xff, 0xff, 0xff, 0xff, 0x02],
    ] {
        assert_eq!(Lz4Metadata::decode(bytes).err(), Some(Lz4Error::InvalidMetadata));
    }
    // a length that the frame's fields overrun
    assert_eq!(
        Lz4Metadata::decode(&[0x0a, 2, 0x08, 0x80, 0x01]).err(),
        Some(Lz4Error::InvalidMetadata)
    );
}

#[test]
fn longer_varints_than_needed_are_read() {
    assert_eq!(
        Lz4FrameMetadata::decode(&[0x88, 0x00, 0x85, 0x80, 0x00]).unwrap(),
        frame(5, 0)
    );
}

/// A field 5 of groups within groups, `depth` of them.
fn groups(depth: usize) -> Vec<u8> {
    let mut bytes = vec![0x2b; depth];
    bytes.extend(vec![0x2c; depth]);
    bytes
}

#[test]
fn unknown_groups_nest_to_a_limit() {
    // in a message that stands by itself
    assert!(Lz4FrameMetadata::decode(&groups(100)).is_ok());
    assert!(Lz4FrameMetadata::decode(&groups(101)).is_err());
    assert!(Lz4Metadata::decode(&groups(100)).is_ok());
    assert!(Lz4Metadata::decode(&groups(101)).is_err());
    // in a message within a message, one level less
    let nested = |depth| {
        let field = groups(depth);
        let mut bytes = vec![0x0a, (field.len() + 2) as u8 | 0x80, ((field.len() + 2) >> 7) as u8];
        bytes.extend(field);
        bytes.extend([0x10, 7]);
        bytes
    };
    assert_eq!(Lz4Metadata::decode(&nested(99)).unwrap().frames, vec![frame(0, 7)]);
    assert_eq!(Lz4Metadata::decode(&nested(100)).err(), Some(Lz4Error::InvalidMetadata));
}
