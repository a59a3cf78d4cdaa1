use rustscope::export::{csv_esc, is_zero, join, to_collapsed_stacks, to_speedscope, ExportFormat, WriteOptions};
use rustscope::calltree::CallTreeNode;
use rustscope::pprof::{
    crc32, crc32_table, encode_profile, field_bytes, field_str, field_varint, gzip_compress, submsg, varint,
    PprofFunction, PprofSession, StringTable,
};
use rustscope::text::{chars_of, u64_to_decimal};

fn leaf(name: &str, ns: u64) -> CallTreeNode {
    CallTreeNode {
        name: name.to_string(),
        call_count: 1,
        total_ns: ns,
        children: Vec::new(),
        file: "src/lib.rs".to_string(),
        line: 10,
        duration_ns: ns,
        alloc_bytes: None,
        cpu_cycles: None,
    }
}

fn node(name: &str, ns: u64, children: Vec<CallTreeNode>) -> CallTreeNode {
    let mut n = leaf(name, ns);
    n.children = children;
    n
}

#[test]
fn varint_encodes_base_128() {
    let mut b = Vec::new();
    varint(&mut b, 300);
    assert_eq!(b, vec![0xAC, 0x02]);
    let mut b = Vec::new();
    varint(&mut b, 0);
    assert_eq!(b, vec![0x00]);
    let mut b = Vec::new();
    varint(&mut b, 127);
    varint(&mut b, 128);
    assert_eq!(b, vec![0x7f, 0x80, 0x01]);
    let mut b = Vec::new();
    varint(&mut b, u64::MAX);
    assert_eq!(b.len(), 10);
    assert_eq!(b[9], 0x01);
}

#[test]
fn protobuf_fields_carry_tag_and_length() {
    let mut b = Vec::new();
    field_varint(&mut b, 1, 150);
    assert_eq!(b, vec![0x08, 0x96, 0x01]);
    let mut b = Vec::new();
    field_str(&mut b, 6, "cpu");
    assert_eq!(b, vec![0x32, 0x03, b'c', b'p', b'u']);
    let mut b = Vec::new();
    field_bytes(&mut b, 2, &[1, 2]);
    assert_eq!(b, vec![0x12, 0x02, 1, 2]);
    let mut b = Vec::new();
    submsg(&mut b, 3, &[9]);
    assert_eq!(b, vec![0x1a, 0x01, 9]);
}

#[test]
fn string_table_interns_once() {
    let mut st = StringTable::new();
    assert_eq!(st.len(), 1);
    assert_eq!(st.get(0).as_str(), "");
    let a = st.intern(&"alpha".to_string());
    let b = st.intern(&"beta".to_string());
    let a2 = st.intern(&"alpha".to_string());
    assert_eq!((a, b, a2), (1, 2, 1));
    assert_eq!(st.len(), 3);
    assert_eq!(st.find(&"beta".to_string()), Some(2));
    assert_eq!(st.find(&"gamma".to_string()), None);
    assert_eq!(StringTable::empty().len(), 0);
}

#[test]
fn crc32_check_value() {
    assert_eq!(crc32(b"123456789"), 0xCBF4_3926);
    assert_eq!(crc32(b""), 0);
    assert_eq!(crc32(b"abc"), 0x3524_41C2);
    let t = crc32_table();
    assert_eq!(t.len(), 256);
    assert_eq!(t[1], 0x7707_3096);
}

#[test]
fn gzip_wraps_data_in_a_stored_block() {
    let out = gzip_compress(b"abc");
    let mut expected = vec![0x1f, 0x8b, 0x08, 0x00, 0, 0, 0, 0, 0, 0xff, 0x01, 0x03, 0x00, 0xfc, 0xff];
    expected.extend_from_slice(b"abc");
    expected.extend_from_slice(&0x3524_41C2u32.to_le_bytes());
    expected.extend_from_slice(&3u32.to_le_bytes());
    assert_eq!(out, expected);
    let empty = gzip_compress(b"");
    assert_eq!(&empty[10..15], &[0x01, 0x00, 0x00, 0xff, 0xff]);
    assert_eq!(empty.len(), 23);
}

#[test]
fn gzip_splits_large_input_into_blocks() {
    let data = vec![7u8; 70_000];
    let out = gzip_compress(&data);
    assert_eq!(out[10], 0x00);
    assert_eq!(&out[11..15], &[0xff, 0xff, 0x00, 0x00]);
    let second = 10 + 5 + 65_535;
    assert_eq!(out[second], 0x01);
    let rest = 70_000 - 65_535;
    assert_eq!(out[second + 1] as usize + ((out[second + 2] as usize) << 8), rest);
    assert_eq!(out.len(), 10 + 5 + 65_535 + 5 + rest + 8);
    assert_eq!(&out[out.len() - 4..], &70_000u32.to_le_bytes());
}

#[test]
fn pprof_profile_holds_its_strings() {
    let session = PprofSession {
        functions: vec![PprofFunction {
            name: "parse".to_string(),
            module: "app".to_string(),
            file: "src/parse.rs".to_string(),
            line: 12,
            total_ns: 5000,
            alloc_bytes: 64,
        }],
        session_duration_ns: 9000,
        started_at_unix_secs: 2,
    };
    let bytes = encode_profile(&session);
    let has = |needle: &[u8]| bytes.windows(needle.len()).any(|w| w == needle);
    assert!(has(&[0x32, 0x03, b'c', b'p', b'u']));
    assert!(has(b"app::parse"));
    assert!(has(b"src/parse.rs"));
    assert!(has(b"nanoseconds"));
}

#[test]
fn decimal_text_of_numbers() {
    assert_eq!(u64_to_decimal(0), "0");
    assert_eq!(u64_to_decimal(42), "42");
    assert_eq!(u64_to_decimal(u64::MAX), "18446744073709551615");
    assert_eq!(chars_of("hé"), vec!['h', 'é']);
}

#[test]
fn export_format_file_names() {
    assert_eq!(ExportFormat::ChromeTrace.default_extension(), "chrome_trace.json");
    assert_eq!(ExportFormat::SpeedScope.default_extension(), "speedscope.json");
    assert_eq!(ExportFormat::CollapsedStacks.default_extension(), "stacks.txt");
    assert_eq!(ExportFormat::Csv.default_extension(), "profile.csv");
    assert!(is_zero(&0));
    assert!(!is_zero(&3));
    let o = WriteOptions::default();
    assert!(o.pretty && !o.append && o.include_raw_samples);
}

#[test]
fn csv_fields_are_quoted_when_needed() {
    assert_eq!(csv_esc("plain"), "plain");
    assert_eq!(csv_esc("a,b"), "\"a,b\"");
    assert_eq!(csv_esc("say \"hi\""), "\"say \"\"hi\"\"\"");
    assert_eq!(csv_esc("two\nlines"), "\"two\nlines\"");
    assert_eq!(csv_esc(""), "");
}

#[test]
fn collapsed_stacks_list_leaf_paths() {
    let tree = node("main", 30, vec![node("work", 20, vec![leaf("sort", 12), leaf("alloc", 5)]), leaf("log", 3)]);
    let flat = vec![("main".to_string(), 7u64)];
    let text = to_collapsed_stacks(&vec![tree], &flat);
    assert_eq!(text, "main;work;sort 12\nmain;work;alloc 5\nmain;log 3\nmain 7");
    assert_eq!(to_collapsed_stacks(&Vec::new(), &Vec::new()), "");
    assert_eq!(join(&vec!["a".to_string(), "b".to_string()]), "a\nb");
}

#[test]
fn speedscope_shares_frames() {
    let tree = node("main", 30, vec![leaf("f", 10), leaf("f", 5)]);
    let p = to_speedscope(&vec![tree, leaf("main", 4)]);
    assert_eq!(p.frames.len(), 2);
    assert_eq!(p.keys[0], "main:src/lib.rs:10");
    assert_eq!(p.samples, vec![vec![0, 1], vec![0, 1], vec![0]]);
    assert_eq!(p.weights, vec![10, 5, 4]);
}
