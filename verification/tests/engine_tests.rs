use kvparser::engine::{parse, parse_blocks, run_task, Parsable, Task};
use kvparser::fields::FieldMap;
use kvparser::scan::{scan_chunks, ChunkRange};

/// A factory that accepts every block whose field map holds at least one key.
struct KeepNonEmpty;

impl Parsable for KeepNonEmpty {
    type Output = FieldMap;

    fn new(key_values: FieldMap) -> Option<FieldMap> {
        if key_values.is_empty() {
            None
        } else {
            Some(key_values)
        }
    }
}

/// A factory that declines every block.
struct DeclineAll;

impl Parsable for DeclineAll {
    type Output = FieldMap;

    fn new(_key_values: FieldMap) -> Option<FieldMap> {
        None
    }
}

fn value_of(m: &FieldMap, key: &[u8]) -> Vec<u8> {
    m.get(key).expect("key should be present").clone()
}

/// The content signature of an output list: every map flattened to its
/// single `A`/`B`/`C`-style probe keys, sorted, so order does not matter.
fn sorted_values(maps: &[FieldMap], keys: &[&[u8]]) -> Vec<Vec<u8>> {
    let mut all = Vec::new();
    for m in maps {
        for k in keys {
            if let Some(v) = m.get(k) {
                all.push(v.clone());
            }
        }
    }
    all.sort();
    all
}

#[test]
fn single_block_distinct_keys() {
    let input = b"Package: com.example.my.package\nName: My Package\n";
    let out = parse::<KeepNonEmpty>(input);
    assert_eq!(out.len(), 1);
    assert_eq!(out[0].len(), 2);
    assert_eq!(value_of(&out[0], b"Package"), b"com.example.my.package".to_vec());
    assert_eq!(value_of(&out[0], b"Name"), b"My Package".to_vec());
}

#[test]
fn duplicate_key_last_write_wins() {
    let blocks = parse_blocks(b"A: 1\nA: 2\n\n");
    assert_eq!(blocks[0].len(), 1);
    assert_eq!(value_of(&blocks[0], b"A"), b"2".to_vec());
    let out = parse::<KeepNonEmpty>(b"A: 1\nA: 2\n\n");
    assert_eq!(out.len(), 1);
    assert_eq!(value_of(&out[0], b"A"), b"2".to_vec());
}

#[test]
fn continuation_folding_preserves_break_and_space() {
    let blocks = parse_blocks(b"A: first\n second\n\n");
    assert_eq!(blocks[0].len(), 1);
    assert_eq!(value_of(&blocks[0], b"A"), b"first\n second".to_vec());
}

#[test]
fn line_without_delimiter_is_skipped() {
    let blocks = parse_blocks(b"A: 1\nstray line\n\n");
    assert_eq!(blocks[0].len(), 1);
    assert_eq!(value_of(&blocks[0], b"A"), b"1".to_vec());
    assert!(blocks[0].get(b"stray line").is_none());
}

#[test]
fn trailing_block_without_blank_line_is_parsed() {
    let out = parse::<KeepNonEmpty>(b"A: 1\n\nB: 2");
    assert_eq!(out.len(), 2);
    let vals = sorted_values(&out, &[b"A", b"B"]);
    assert_eq!(vals, vec![b"1".to_vec(), b"2".to_vec()]);
}

#[test]
fn scan_chunks_exact_ranges() {
    let r = scan_chunks(b"A: 1\n\nB: 2");
    assert_eq!(r.len(), 2);
    assert_eq!(r[0], ChunkRange { start: 0, end: 6 });
    assert_eq!(r[1], ChunkRange { start: 6, end: 10 });
}

#[test]
fn scan_chunks_covers_tail_after_final_blank_line() {
    let r = scan_chunks(b"A: 1\n\n");
    assert_eq!(r.len(), 2);
    assert_eq!(r[0], ChunkRange { start: 0, end: 6 });
    assert_eq!(r[1], ChunkRange { start: 6, end: 6 });
}

#[test]
fn scan_chunks_no_blank_line_single_range() {
    let r = scan_chunks(b"A: 1\nB: 2\n");
    assert_eq!(r.len(), 1);
    assert_eq!(r[0], ChunkRange { start: 0, end: 10 });
}

#[test]
fn scan_chunks_leading_line_break_cuts_at_one() {
    let r = scan_chunks(b"\nA: 1");
    assert_eq!(r.len(), 2);
    assert_eq!(r[0], ChunkRange { start: 0, end: 1 });
    assert_eq!(r[1], ChunkRange { start: 1, end: 5 });
}

#[test]
fn triple_line_break_emits_empty_range() {
    let blocks = parse_blocks(b"A: 1\n\n\nB: 2");
    assert_eq!(blocks.len(), 3);
    assert_eq!(blocks[1].len(), 0);
    let out = parse::<KeepNonEmpty>(b"A: 1\n\n\nB: 2");
    assert_eq!(out.len(), 2);
}

#[test]
fn empty_content_yields_one_empty_block() {
    let blocks = parse_blocks(b"");
    assert_eq!(blocks.len(), 1);
    assert_eq!(blocks[0].len(), 0);
    let out = parse::<KeepNonEmpty>(b"");
    assert_eq!(out.len(), 0);
}

#[test]
fn declined_blocks_are_dropped_silently() {
    let out = parse::<DeclineAll>(b"A: 1\n\nB: 2\n");
    assert_eq!(out.len(), 0);
}

#[test]
fn worker_order_does_not_change_content() {
    let input = b"A: 1\n\nB: 2\n\nC: 3";
    let ranges = scan_chunks(input);
    let mut forward = Vec::new();
    for rg in ranges.iter() {
        let (quit, out) = run_task::<KeepNonEmpty>(input, Task::Process(*rg));
        assert!(!quit);
        if let Some(m) = out {
            forward.push(m);
        }
    }
    let mut backward = Vec::new();
    for rg in ranges.iter().rev() {
        let (quit, out) = run_task::<KeepNonEmpty>(input, Task::Process(*rg));
        assert!(!quit);
        if let Some(m) = out {
            backward.push(m);
        }
    }
    let keys: &[&[u8]] = &[b"A", b"B", b"C"];
    assert_eq!(sorted_values(&forward, keys), sorted_values(&backward, keys));
    assert_eq!(forward.len(), 3);
}

#[test]
fn quit_task_stops_worker_without_output() {
    let (quit, out) = run_task::<KeepNonEmpty>(b"A: 1\n", Task::Quit);
    assert!(quit);
    assert!(out.is_none());
}

#[test]
fn parsing_twice_yields_same_content() {
    let input = b"A: 1\n\nB: 2\nC: 3\n";
    let first = parse::<KeepNonEmpty>(input);
    let second = parse::<KeepNonEmpty>(input);
    let keys: &[&[u8]] = &[b"A", b"B", b"C"];
    assert_eq!(sorted_values(&first, keys), sorted_values(&second, keys));
    assert_eq!(first.len(), second.len());
}

#[test]
fn one_worker_versus_many_same_multiset() {
    // one worker takes every task; three workers split them up
    let input = b"A: 1\n\nB: 2\n\nC: 3\n\nD: 4";
    let ranges = scan_chunks(input);
    let mut single = Vec::new();
    for rg in ranges.iter() {
        if let (_, Some(m)) = run_task::<KeepNonEmpty>(input, Task::Process(*rg)) {
            single.push(m);
        }
    }
    let mut split: Vec<FieldMap> = Vec::new();
    for stride in 0..3usize {
        for (i, rg) in ranges.iter().enumerate() {
            if i % 3 == stride {
                if let (_, Some(m)) = run_task::<KeepNonEmpty>(input, Task::Process(*rg)) {
                    split.push(m);
                }
            }
        }
    }
    let keys: &[&[u8]] = &[b"A", b"B", b"C", b"D"];
    assert_eq!(sorted_values(&single, keys), sorted_values(&split, keys));
}
