use chunk_translate::reader::LazyFileReader;

fn lines(v: &[&str]) -> Vec<String> {
    v.iter().map(|s| s.to_string()).collect()
}

#[test]
fn chunks_of_two_lines_in_order() {
    let mut r = LazyFileReader::new(lines(&["a", "b", "c", "d", "e"]), 2, 0);
    let c1 = r.pull().unwrap();
    assert_eq!((c1.sequence, c1.text.as_str()), (1, "a\nb"));
    let c2 = r.pull().unwrap();
    assert_eq!((c2.sequence, c2.text.as_str()), (2, "c\nd"));
    let c3 = r.pull().unwrap();
    assert_eq!((c3.sequence, c3.text.as_str()), (3, "e"));
    assert!(r.pull().is_none());
}

#[test]
fn resume_skips_consumed_lines() {
    let mut r = LazyFileReader::new(lines(&["a", "b", "c", "d", "e"]), 2, 4);
    let c = r.pull().unwrap();
    assert_eq!(c.sequence, 1);
    assert_eq!(c.text, "e");
    assert!(r.pull().is_none());
}

#[test]
fn skip_beyond_end_reads_nothing() {
    let mut r = LazyFileReader::new(lines(&["a", "b"]), 2, 10);
    assert!(r.read_next_chunk().is_none());
    assert_eq!(r.get_call_count(), 1);
    assert_eq!(r.get_read_count(), 1);
}

#[test]
fn blank_groups_are_skipped_but_counted() {
    let mut r = LazyFileReader::new(lines(&["a", "b", "   ", "\t", "c"]), 2, 0);
    assert_eq!(r.read_next_chunk().unwrap(), "a\nb");
    assert_eq!(r.get_read_count(), 1);
    assert_eq!(r.read_next_chunk().unwrap(), "c");
    assert_eq!(r.get_call_count(), 2);
    assert_eq!(r.get_read_count(), 3);
    assert!(r.read_next_chunk().is_none());
    assert_eq!(r.get_read_count(), 4);
}

#[test]
fn trailing_whitespace_is_trimmed() {
    let mut r = LazyFileReader::new(lines(&["a  \n", " b\r\n", "c\n"]), 3, 0);
    assert_eq!(r.read_next_chunk().unwrap(), "a\n b\nc");
}

#[test]
fn chunk_size_zero_reads_nothing() {
    let mut r = LazyFileReader::new(lines(&["a"]), 0, 0);
    assert!(r.read_next_chunk().is_none());
}

#[test]
fn empty_input_reads_nothing() {
    let mut r = LazyFileReader::new(Vec::new(), 3, 0);
    assert!(r.can_read());
    assert!(r.pull().is_none());
}
