use kvparser::bytes::{bytes_eq, trim_bytes};
use kvparser::extract::{parse_chunk, parse_fields};
use kvparser::fields::FieldMap;

#[test]
fn trim_bytes_strips_both_ends_only() {
    assert_eq!(trim_bytes(b"  a b \t"), b"a b".to_vec());
    assert_eq!(trim_bytes(b"\r\n x \r\n"), b"x".to_vec());
    assert_eq!(trim_bytes(b"   "), Vec::<u8>::new());
    assert_eq!(trim_bytes(b""), Vec::<u8>::new());
    assert_eq!(trim_bytes(b"inner  kept"), b"inner  kept".to_vec());
}

#[test]
fn bytes_eq_compares_content() {
    assert!(bytes_eq(b"abc", b"abc"));
    assert!(!bytes_eq(b"abc", b"abd"));
    assert!(!bytes_eq(b"abc", b"ab"));
    assert!(bytes_eq(b"", b""));
}

#[test]
fn parse_chunk_folds_continuations() {
    let lines = parse_chunk(b"A: 1\n second\nB: 2");
    assert_eq!(lines.len(), 2);
    assert_eq!(lines[0], b"A: 1\n second".to_vec());
    assert_eq!(lines[1], b"B: 2".to_vec());
}

#[test]
fn parse_chunk_drops_empty_lines() {
    let lines = parse_chunk(b"A: 1\n\nB: 2\n");
    assert_eq!(lines.len(), 2);
    assert_eq!(lines[0], b"A: 1".to_vec());
    assert_eq!(lines[1], b"B: 2".to_vec());
}

#[test]
fn parse_chunk_drops_leading_continuation() {
    let lines = parse_chunk(b" x: y\nB: 2");
    assert_eq!(lines.len(), 1);
    assert_eq!(lines[0], b"B: 2".to_vec());
}

#[test]
fn parse_chunk_folds_tab_continuation() {
    let lines = parse_chunk(b"A: 1\n\tmore");
    assert_eq!(lines.len(), 1);
    assert_eq!(lines[0], b"A: 1\n\tmore".to_vec());
}

#[test]
fn parse_fields_trims_keys_and_values() {
    let chunk = parse_chunk(b"Key  :  value with  spaces  \n");
    let m = parse_fields(chunk);
    assert_eq!(m.len(), 1);
    assert_eq!(m.get(b"Key").unwrap(), &b"value with  spaces".to_vec());
}

#[test]
fn parse_fields_splits_at_first_colon_only() {
    let m = parse_fields(parse_chunk(b"A:::x\n"));
    assert_eq!(m.len(), 1);
    assert_eq!(m.get(b"A").unwrap(), &b"::x".to_vec());
}

#[test]
fn parse_fields_skips_delimiterless_lines() {
    let m = parse_fields(parse_chunk(b"no delimiter here\nA: 1\n"));
    assert_eq!(m.len(), 1);
    assert_eq!(m.get(b"A").unwrap(), &b"1".to_vec());
}

#[test]
fn field_map_insert_overwrites() {
    let mut m = FieldMap::new();
    m.insert(b"A".to_vec(), b"1".to_vec());
    m.insert(b"B".to_vec(), b"2".to_vec());
    m.insert(b"A".to_vec(), b"3".to_vec());
    assert_eq!(m.len(), 2);
    assert_eq!(m.get(b"A").unwrap(), &b"3".to_vec());
    assert_eq!(m.get(b"B").unwrap(), &b"2".to_vec());
    assert!(m.get(b"C").is_none());
    assert!(!m.is_empty());
}

#[test]
fn field_map_empty() {
    let m = FieldMap::new();
    assert_eq!(m.len(), 0);
    assert!(m.is_empty());
    assert!(m.get(b"A").is_none());
}
