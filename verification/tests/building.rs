use linked_words::builder::{load_file, IndexBuilder, LineOutcome};
use linked_words::error::IndexError;
use linked_words::index::{build_shard, open_index, read_window, search_index};

fn line(sentence: &str, position: u32, document: u64) -> Vec<u8> {
    format!("{}{:08x}{:016x}", sentence, position, document).into_bytes()
}

#[test]
fn load_file_counts_entries() {
    let lines = vec![line("a cat b", 0, 1), line("b cat c", 1, 1), line("c cat d", 2, 2)];
    let sealed = load_file(&lines).unwrap();
    assert_eq!(sealed.entries, 3);
    assert!(sealed.bytes.len() >= 32);
    let empty = load_file(&Vec::new()).unwrap();
    assert_eq!(empty.entries, 0);
}

#[test]
fn sealed_bytes_open_as_shard() {
    let lines = vec![line("a cat b", 0, 1), line("b cat c", 1, 7)];
    let sealed = load_file(&lines).unwrap();
    let shard = open_index(sealed.bytes).unwrap();
    assert_eq!(
        search_index(&shard, "cat", 0, 10),
        Ok(vec![("a cat b".to_string(), 0, 1), ("b cat c".to_string(), 1, 7)])
    );
}

#[test]
fn truncated_index_is_refused() {
    assert!(matches!(open_index(Vec::new()), Err(IndexError::Io)));
    assert!(matches!(open_index(vec![0u8; 31]), Err(IndexError::Io)));
    let sealed = load_file(&vec![line("a cat b", 0, 1)]).unwrap();
    assert!(matches!(open_index(sealed.bytes[..20].to_vec()), Err(IndexError::Io)));
}

#[test]
fn malformed_line_is_skipped_and_the_rest_indexed() {
    let mut bad = b"b cat c00000001".to_vec();
    bad.extend_from_slice(b"00000000000000zz");
    let with_bad = vec![line("a cat b", 0, 1), bad, line("c cat d", 2, 2), b"short".to_vec()];
    let without = vec![line("a cat b", 0, 1), line("c cat d", 2, 2)];
    let sealed = load_file(&with_bad).unwrap();
    assert_eq!(sealed.entries, 2);
    assert_eq!(sealed.bytes, load_file(&without).unwrap().bytes);
    let shard = open_index(sealed.bytes).unwrap();
    assert_eq!(
        search_index(&shard, "cat", 0, 10),
        Ok(vec![("a cat b".to_string(), 0, 1), ("c cat d".to_string(), 2, 2)])
    );
}

#[test]
fn line_out_of_order_is_skipped_and_the_rest_indexed() {
    let lines = vec![
        line("b cat c", 1, 1),
        line("a cat b", 0, 1),
        line("b cat c", 1, 1),
        line("c cat d", 2, 2),
    ];
    let sealed = load_file(&lines).unwrap();
    assert_eq!(sealed.entries, 2);
    let shard = open_index(sealed.bytes).unwrap();
    assert_eq!(
        search_index(&shard, "cat", 0, 10),
        Ok(vec![("b cat c".to_string(), 1, 1), ("c cat d".to_string(), 2, 2)])
    );
}

fn add(builder: IndexBuilder, line: &[u8], expected: LineOutcome) -> IndexBuilder {
    assert!(builder.written() < usize::MAX);
    let (builder, outcome) = builder.add_line(line);
    assert_eq!(outcome, expected);
    builder
}

#[test]
fn builder_reports_each_line() {
    let builder = IndexBuilder::new();
    assert_eq!(builder.written(), 0);
    let builder = add(builder, &line("b", 0, 1), LineOutcome::Indexed);
    let builder = add(builder, b"no identifier here", LineOutcome::Malformed);
    let builder = add(builder, &line("a", 0, 1), LineOutcome::OutOfOrder);
    let builder = add(builder, &line("b", 0, 2), LineOutcome::OutOfOrder);
    let builder = add(builder, &line("b", 1, 1), LineOutcome::Indexed);
    let builder = add(builder, &line("c", 0, 3), LineOutcome::Indexed);
    assert_eq!(builder.written(), 3);
    let sealed = builder.finish().unwrap();
    assert_eq!(sealed.entries, 3);
}

#[test]
fn key_may_be_empty() {
    let builder = IndexBuilder::new();
    let builder = add(builder, b"0000000000000005", LineOutcome::Indexed);
    let builder = add(builder, b"0000000000000006", LineOutcome::OutOfOrder);
    let builder = add(builder, &line("a", 0, 1), LineOutcome::Indexed);
    assert_eq!(builder.finish().unwrap().entries, 2);
}

#[test]
fn one_line_builds_one_entry() {
    let lines = vec![line("the quick fox", 7, 42)];
    assert_eq!(lines[0], b"the quick fox00000007000000000000002a".to_vec());
    let sealed = load_file(&lines).unwrap();
    assert_eq!(sealed.entries, 1);
    let shard = open_index(sealed.bytes).unwrap();
    assert_eq!(
        read_window(&mut shard.scan_for(&[]).unwrap(), 0, 10),
        vec![(b"the quick fox00000007".to_vec(), 42)]
    );
}

#[test]
fn equal_key_keeps_its_first_value() {
    let lines = vec![line("a cat sat", 0, 1), line("a cat sat", 0, 2)];
    let shard = build_shard(&lines).unwrap();
    assert_eq!(
        read_window(&mut shard.scan_for(&[]).unwrap(), 0, 10),
        vec![(b"a cat sat00000000".to_vec(), 1)]
    );
}

#[test]
fn lines_without_identifier_leave_an_empty_index() {
    let lines = vec![b"short".to_vec(), b"a cat sat00000000+000000000000001".to_vec()];
    let sealed = load_file(&lines).unwrap();
    assert_eq!(sealed.entries, 0);
    let shard = open_index(sealed.bytes).unwrap();
    assert_eq!(read_window(&mut shard.scan_for(&[]).unwrap(), 0, 10), vec![]);
}

#[test]
fn every_token_of_a_sorted_corpus_is_found() {
    let sentences = ["alpha beta gamma", "beta gamma delta", "delta alpha beta", "gamma"];
    let mut lines: Vec<Vec<u8>> =
        sentences.iter().enumerate().map(|(i, s)| line(&format!(" {} ", s), i as u32, 9)).collect();
    lines.sort();
    let shard = build_shard(&lines).unwrap();
    for (i, sentence) in sentences.iter().enumerate() {
        for token in sentence.split(' ') {
            let found = search_index(&shard, token, 0, lines.len()).unwrap();
            assert!(found.contains(&(format!(" {} ", sentence), i as u32, 9)));
            for m in &found {
                assert!(m.0.contains(&format!(" {} ", token)));
            }
        }
    }
}
