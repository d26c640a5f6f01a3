//! The model behind a visualization.

use flatbuffers::FlatBufferBuilder;
use vortex_lz4::postscript::read_postscript;
use vortex_lz4::postscript::PostscriptSegments;
use vortex_lz4::postscript::SegmentSpec;
use vortex_lz4::template::DATA_PLACEHOLDER;
use vortex_lz4::template::TEMPLATE;
use vortex_lz4::visualize::build_columns;
use vortex_lz4::visualize::build_model;
use vortex_lz4::visualize::file_size;
use vortex_lz4::visualize::locate_postscript;
use vortex_lz4::visualize::max_segment_end;
use vortex_lz4::visualize::meta_segments;
use vortex_lz4::visualize::read_meta_segments;
use vortex_lz4::visualize::render_html;
use vortex_lz4::visualize::tail_range;
use vortex_lz4::visualize::FileFooter;
use vortex_lz4::visualize::SegmentDisplay;
use vortex_lz4::visualize::SegmentTree;
use vortex_lz4::visualize::VisualizeArgs;

/// The HTML template must contain the data placeholder exactly once; otherwise
/// `exec_visualize` would emit an HTML file with no embedded data (or with the
/// JSON injected in the wrong place).
#[test]
fn template_has_single_placeholder() {
    assert_eq!(
        TEMPLATE.matches(DATA_PLACEHOLDER).count(),
        1,
        "template must embed `{DATA_PLACEHOLDER}` exactly once"
    );
}

fn segment(name: &str, offset: u64, length: u32, row_offset: u64, row_count: u64) -> SegmentDisplay {
    SegmentDisplay {
        name: name.to_string(),
        spec: SegmentSpec { offset, length },
        row_offset,
        row_count,
    }
}

#[test]
fn columns_are_in_display_order_and_sorted_by_offset() {
    let mut tree = SegmentTree::new();
    tree.add_column(
        "b".to_string(),
        vec![
            segment("data", 30, 3, 20, 10),
            segment("data", 10, 1, 0, 10),
            segment("zones", 30, 4, 0, 0),
            segment("stats", 20, 2, 10, 10),
        ],
    );
    tree.add_column("a".to_string(), vec![segment("stats", 5, 9, 0, 30), segment("x", 0, 1, 0, 1)]);
    // a column without segments, and one that comes again
    tree.segment_ordering.push("c".to_string());
    tree.segment_ordering.push("b".to_string());
    let (columns, names) = build_columns(tree);
    assert_eq!(names, ["data", "stats", "zones", "x"]);
    assert_eq!(columns.len(), 2);
    assert_eq!(columns[0].name, "b");
    assert_eq!(columns[0].o, [10, 20, 30, 30]);
    // equal offsets stay in the order in which they came
    assert_eq!(columns[0].l, [1, 2, 3, 4]);
    assert_eq!(columns[0].n, [0, 1, 0, 2]);
    assert_eq!(columns[0].ro, [0, 10, 20, 0]);
    assert_eq!(columns[0].rc, [10, 10, 10, 0]);
    assert_eq!(columns[1].name, "a");
    assert_eq!(columns[1].o, [0, 5]);
    assert_eq!(columns[1].n, [3, 1]);
}

#[test]
fn many_segments_are_sorted() {
    let mut tree = SegmentTree::new();
    let offsets: Vec<u64> = (0..200).map(|i| (i * 37) % 101).collect();
    let segments = offsets.iter().map(|o| segment("s", *o, 1, 0, 0)).collect();
    tree.add_column("c".to_string(), segments);
    let (columns, _) = build_columns(tree);
    let mut sorted = offsets;
    sorted.sort();
    assert_eq!(columns[0].o, sorted);
}

fn footer(segment_map: Vec<SegmentSpec>) -> FileFooter {
    let mut segment_tree = SegmentTree::new();
    segment_tree.add_column("a".to_string(), vec![segment("s", 0, 4, 0, 2)]);
    FileFooter {
        segment_tree,
        segment_map,
        row_count: 2,
        schema: "{a=u32}".to_string(),
        splits: vec![[0, 2]],
    }
}

#[test]
fn the_model_holds_what_it_is_given() {
    let footer = footer(vec![SegmentSpec { offset: 0, length: 4 }]);
    assert_eq!(footer.file_size(None), 4);
    assert_eq!(footer.file_size(Some(12)), 12);
    let model = build_model("f.vortex".to_string(), footer, 12, None);
    assert_eq!(model.file, "f.vortex");
    assert_eq!((model.file_size, model.row_count), (12, 2));
    assert_eq!(model.schema, "{a=u32}");
    assert_eq!(model.splits, [[0, 2]]);
    assert_eq!(model.seg_names, ["s"]);
    assert_eq!(model.columns.len(), 1);
    assert_eq!(model.columns[0].o, [0]);
    assert!(model.meta.is_empty());
}

#[test]
fn column_data_does_not_show_in_the_model() {
    let end = |data: u8| {
        let mut file = vec![data; 4];
        let bytes = postscript(&[(4, 4, 20), (10, 24, 6)]);
        file.extend_from_slice(&bytes);
        file.extend_from_slice(&[1, 0]);
        file.extend_from_slice(&(bytes.len() as u16).to_le_bytes());
        file.extend_from_slice(b"VTXF");
        file
    };
    let shown = |file: Vec<u8>| {
        let size = file.len() as u64;
        let footer = footer(vec![SegmentSpec { offset: 0, length: 4 }]);
        let model = build_model("f".to_string(), footer, size, Some(&file));
        assert_eq!(model.meta.len(), 4);
        render_html(&format!("{model:?}"))
    };
    assert_eq!(shown(end(1)), shown(end(2)));
}

#[test]
fn file_size_covers_every_segment() {
    assert_eq!(max_segment_end(&vec![]), 0);
    let segments = vec![
        SegmentSpec { offset: 4, length: 10 },
        SegmentSpec { offset: 2, length: 50 },
        SegmentSpec { offset: 30, length: 1 },
    ];
    assert_eq!(max_segment_end(&segments), 52);
    assert_eq!(file_size(Some(60), 52), 60);
    assert_eq!(file_size(Some(40), 52), 52);
    assert_eq!(file_size(None, 52), 52);
}

#[test]
fn the_tail_is_as_long_as_a_postscript_can_be() {
    assert_eq!(tail_range(100), (0, 100));
    assert_eq!(tail_range(65535), (0, 65535));
    assert_eq!(tail_range(100_000), (34465, 65535));
}

fn tail(ps_size: u16, len: usize) -> Vec<u8> {
    let mut bytes = vec![7; len - 8];
    bytes.extend_from_slice(&[1, 0]);
    bytes.extend_from_slice(&ps_size.to_le_bytes());
    bytes.extend_from_slice(b"VTXF");
    bytes
}

#[test]
fn the_postscript_is_found_before_the_marker() {
    assert_eq!(locate_postscript(&tail(300, 400)), Some((92, 392)));
    assert_eq!(locate_postscript(&tail(392, 400)), Some((0, 392)));
    assert_eq!(locate_postscript(&tail(0, 8)), Some((0, 0)));
    assert_eq!(locate_postscript(&tail(393, 400)), None);
    assert_eq!(locate_postscript(b"VTXF"), None);
    let mut wrong = tail(3, 20);
    wrong[19] = b'G';
    assert_eq!(locate_postscript(&wrong), None);
}

#[test]
fn metadata_ranges_are_listed_up_to_the_end() {
    let range = |offset, length| Some(SegmentSpec { offset, length });
    let meta = meta_segments(
        1000,
        92,
        PostscriptSegments {
            dtype: range(600, 10),
            layout: range(610, 20),
            statistics: None,
            footer: range(700, 200),
        },
    );
    let listed: Vec<(&str, u64, u32)> =
        meta.iter().map(|m| (m.name.as_str(), m.byte_offset, m.byte_length)).collect();
    assert_eq!(
        listed,
        [
            ("dtype", 600, 10),
            ("layout", 610, 20),
            ("footer", 700, 200),
            ("postscript", 900, 92),
            ("EOF", 992, 8),
        ]
    );
    let none = PostscriptSegments {
        dtype: None,
        layout: None,
        statistics: range(1, 2),
        footer: None,
    };
    let meta = meta_segments(8, 0, none);
    assert_eq!(meta[0].name, "statistics");
    assert_eq!((meta[1].byte_offset, meta[1].byte_length), (0, 0));
    assert_eq!(meta[2].byte_offset + u64::from(meta[2].byte_length), 8);
}

#[test]
fn output_and_display_names() {
    let args = |output: Option<&str>| VisualizeArgs {
        file: "dir/data.vortex".to_string(),
        output: output.map(|o| o.to_string()),
        open: false,
    };
    assert_eq!(args(Some("x.html")).output_path(Some("data".to_string())), "x.html");
    assert_eq!(args(None).output_path(Some("data".to_string())), "data.layout.html");
    assert_eq!(args(None).output_path(None), "vortex.layout.html");
    assert_eq!(args(None).display_name(Some("data.vortex".to_string())), "data.vortex");
    assert_eq!(args(None).display_name(None), "dir/data.vortex");
}

#[test]
fn the_page_embeds_the_model() {
    let html = render_html("{\"file\":\"f\"}");
    assert!(html.contains("let model = {\"file\":\"f\"};"));
    assert!(!html.contains(DATA_PLACEHOLDER));
    let (head, tail) = TEMPLATE.split_once(DATA_PLACEHOLDER).unwrap();
    assert_eq!(html, format!("{head}{{\"file\":\"f\"}}{tail}"));
}

/// A postscript with these ranges in its slots.
fn postscript(ranges: &[(u16, u64, u32)]) -> Vec<u8> {
    let mut builder = FlatBufferBuilder::new();
    let mut segments = Vec::new();
    for (slot, offset, length) in ranges {
        let table = builder.start_table();
        builder.push_slot::<u64>(4, *offset, 0);
        builder.push_slot::<u32>(6, *length, 0);
        builder.push_slot::<u8>(8, 3, 0);
        segments.push((*slot, builder.end_table(table)));
    }
    let root = builder.start_table();
    for (slot, segment) in segments {
        builder.push_slot_always(slot, segment);
    }
    let root = builder.end_table(root);
    builder.finish_minimal(root);
    builder.finished_data().to_vec()
}

#[test]
fn postscripts_are_read() {
    let range = |offset, length| Some(SegmentSpec { offset, length });
    let bytes = postscript(&[(4, 600, 10), (6, 0, 20), (10, 0x1234_5678_9abc_def0, 0xfedc_ba98)]);
    assert_eq!(
        read_postscript(&bytes),
        Some(PostscriptSegments {
            dtype: range(600, 10),
            layout: range(0, 20),
            statistics: None,
            footer: range(0x1234_5678_9abc_def0, 0xfedc_ba98),
        })
    );
    let bytes = postscript(&[(8, 7, 0)]);
    assert_eq!(
        read_postscript(&bytes),
        Some(PostscriptSegments {
            dtype: None,
            layout: None,
            statistics: range(7, 0),
            footer: None,
        })
    );
}

#[test]
fn broken_postscripts_are_refused() {
    let bytes = postscript(&[(4, 600, 10), (10, 700, 200)]);
    // a vtable that lies before the bytes
    let mut wild = bytes.clone();
    let root = u32::from_le_bytes([wild[0], wild[1], wild[2], wild[3]]) as usize;
    wild[root..root + 4].copy_from_slice(&1000_i32.to_le_bytes());
    assert_eq!(read_postscript(&wild), None);
    // a root behind the bytes
    let mut far = bytes.clone();
    far[0..4].copy_from_slice(&0xffff_fff0_u32.to_le_bytes());
    assert_eq!(read_postscript(&far), None);
    assert_eq!(read_postscript(&bytes[..bytes.len() - 4]), None);
    assert_eq!(read_postscript(&[]), None);
}

#[test]
fn the_end_of_a_file_tells_its_metadata_ranges() {
    let bytes = postscript(&[(4, 10, 20), (6, 30, 40), (8, 70, 1), (10, 71, 29)]);
    let ps_size = bytes.len() as u64;
    let mut tail = vec![0; 5];
    tail.extend_from_slice(&bytes);
    tail.extend_from_slice(&[1, 0]);
    tail.extend_from_slice(&(ps_size as u16).to_le_bytes());
    tail.extend_from_slice(b"VTXF");
    let meta = read_meta_segments(&tail, 1000);
    let listed: Vec<(&str, u64, u64)> = meta
        .iter()
        .map(|m| (m.name.as_str(), m.byte_offset, u64::from(m.byte_length)))
        .collect();
    assert_eq!(
        listed,
        [
            ("dtype", 10, 20),
            ("layout", 30, 40),
            ("statistics", 70, 1),
            ("footer", 71, 29),
            ("postscript", 992 - ps_size, ps_size),
            ("EOF", 992, 8),
        ]
    );
    assert!(read_meta_segments(&tail[..tail.len() - 1], 1000).is_empty());
    assert!(read_meta_segments(b"", 1000).is_empty());
    // a postscript that is no flatbuffer
    assert!(read_meta_segments(b"\xff\xff\xff\xff\x01\x00\x04\x00VTXF", 1000).is_empty());
}
