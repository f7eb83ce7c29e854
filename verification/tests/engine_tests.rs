use log_engine::engine::LogEngine;

fn engine_from(bytes: &[u8]) -> LogEngine {
    let mut opts = memmap2::MmapOptions::new();
    opts.len(bytes.len());
    let mut mm = opts.map_anon().unwrap();
    if !bytes.is_empty() {
        mm.copy_from_slice(bytes);
    }
    let m = mm.make_read_only().unwrap();
    LogEngine::from_mapping(m)
}

fn block(e: &mut LogEngine, start: usize, n: usize) -> Vec<u8> {
    e.get_block(start, n);
    e.last_block_bytes().clone()
}

#[test]
fn open_three_line_lf_file() {
    let mut e = engine_from(b"a\nb\nc\n");
    assert_eq!(e.total_lines(), 3);
    assert_eq!(block(&mut e, 0, 3), b"a\nb\nc\n".to_vec());
    assert_eq!(block(&mut e, 1, 1), b"b\n".to_vec());
}

#[test]
fn insert_at_middle() {
    let mut e = engine_from(b"a\nb\nc\n");
    e.apply_edit(1, 0, b"X\nY\n");
    assert_eq!(e.total_lines(), 5);
    assert_eq!(block(&mut e, 0, 5), b"a\nX\nY\nb\nc\n".to_vec());
}

#[test]
fn delete_and_replace() {
    let mut e = engine_from(b"a\nb\nc\n");
    e.apply_edit(1, 0, b"X\nY\n");
    e.apply_edit(1, 2, b"Z\n");
    assert_eq!(e.total_lines(), 4);
    assert_eq!(block(&mut e, 0, 4), b"a\nZ\nb\nc\n".to_vec());
}

#[test]
fn crlf_counting_and_search() {
    let e = engine_from(b"x\r\ny\r\n");
    assert_eq!(e.total_lines(), 2);
    assert_eq!(e.search(b"y", 0), Some(1));
}

#[test]
fn crlf_straddling_window_boundary() {
    // byte 1048575 is CR and byte 1048576 is LF: the pair straddles the
    // first window boundary and must count as one terminator
    let mut with_crlf = vec![b'x'; 1048575];
    with_crlf.push(b'\r');
    with_crlf.push(b'\n');
    with_crlf.push(b'z');
    let mut with_lf = vec![b'x'; 1048575];
    with_lf.push(b'\n');
    with_lf.push(b'z');
    let a = engine_from(&with_crlf);
    let b = engine_from(&with_lf);
    assert_eq!(a.total_lines(), b.total_lines());
    assert_eq!(a.total_lines(), 2);
}

#[test]
fn backward_search_across_pieces() {
    let mut e = engine_from(b"foo\nbar\nfoo\n");
    e.apply_edit(1, 0, b"foo\n");
    assert_eq!(e.total_lines(), 4);
    assert_eq!(e.search_backward(b"foo", 3), Some(3));
    assert_eq!(e.search_backward(b"foo", 2), Some(1));
    assert_eq!(e.search_backward(b"foo", 1), Some(1));
}

#[test]
fn empty_file_counts_and_blocks() {
    let mut e = engine_from(b"");
    assert_eq!(e.total_lines(), 0);
    assert_eq!(block(&mut e, 0, 1), Vec::<u8>::new());
    assert_eq!(block(&mut e, 0, 7), Vec::<u8>::new());
    e.apply_edit(0, 0, b"new\n");
    assert_eq!(e.total_lines(), 1);
    assert_eq!(block(&mut e, 0, 1), b"new\n".to_vec());
}

#[test]
fn no_trailing_newline_counts_last_line() {
    let e = engine_from(b"a\nb");
    assert_eq!(e.total_lines(), 2);
}

#[test]
fn save_round_trip_adds_trailing_lf() {
    let e = engine_from(b"a\nb");
    let saved = e.save_bytes();
    assert_eq!(saved, b"a\nb\n".to_vec());
    let mut reopened = engine_from(&saved);
    assert_eq!(reopened.total_lines(), 2);
    assert_eq!(block(&mut reopened, 0, 1), b"a\n".to_vec());
    assert_eq!(block(&mut reopened, 1, 1), b"b\n".to_vec());
}

#[test]
fn crlf_only_file_has_three_lines() {
    let e = engine_from(b"\r\n\r\n\r\n");
    assert_eq!(e.total_lines(), 3);
}

#[test]
fn long_query_spans_terminators_in_original_only() {
    let mut e = engine_from(b"ab\ncd\n");
    assert_eq!(e.search(b"ab\ncd", 0), Some(0));
    // the same text held as edit-buffer lines is matched line by line, so
    // the query spanning the terminator no longer matches
    e.apply_edit(0, 2, b"ab\ncd\n");
    assert_eq!(e.total_lines(), 2);
    assert_eq!(e.search(b"ab\ncd", 0), None);
    assert_eq!(e.search(b"cd", 0), Some(1));
}

#[test]
fn forward_then_backward_agree() {
    let e = engine_from(b"x\nfoo\ny\nfoo\n");
    assert_eq!(e.search(b"foo", 0), Some(1));
    let back = e.search_backward(b"foo", 3).unwrap();
    assert!(back >= 1);
    assert_eq!(e.search_backward(b"foo", 1), Some(1));
}

#[test]
fn absent_query_is_found_nowhere() {
    let mut e = engine_from(b"alpha\nbeta\ngamma\n");
    e.apply_edit(1, 0, b"delta\n");
    for start in 0..4 {
        assert_eq!(e.search(b"zzz", start), None);
        assert_eq!(e.search_backward(b"zzz", start), None);
    }
}

#[test]
fn empty_query_is_an_error() {
    let e = engine_from(b"a\n");
    assert_eq!(e.search(b"", 0), None);
    assert_eq!(e.search_backward(b"", 0), None);
}

#[test]
fn search_past_end_misses_forward_and_clamps_backward() {
    let e = engine_from(b"a\nb\n");
    assert_eq!(e.search(b"a", 5), None);
    assert_eq!(e.search_backward(b"b", 5), Some(1));
}

#[test]
fn empty_edit_is_a_noop() {
    let mut e = engine_from(b"a\nb\nc\n");
    let before = block(&mut e, 0, 3);
    e.apply_edit(1, 0, b"");
    assert_eq!(e.total_lines(), 3);
    assert_eq!(block(&mut e, 0, 3), before);
    assert_eq!(e.save_bytes(), b"a\nb\nc\n".to_vec());
}

#[test]
fn rewriting_lines_with_their_content_keeps_save() {
    let mut e = engine_from(b"a\nb\nc\n");
    let middle = block(&mut e, 1, 1);
    e.apply_edit(1, 1, &middle);
    assert_eq!(e.save_bytes(), b"a\nb\nc\n".to_vec());
}

#[test]
fn block_concatenation_matches_single_lines() {
    let mut e = engine_from(b"aa\nbb\ncc\n");
    e.apply_edit(1, 1, b"B1\nB2\n");
    let whole = block(&mut e, 0, 4);
    let mut pieces = Vec::new();
    for l in 0..4 {
        pieces.extend_from_slice(&block(&mut e, l, 1));
    }
    assert_eq!(whole, pieces);
}

#[test]
fn lone_cr_terminates_a_line() {
    let mut e = engine_from(b"a\rb\n");
    assert_eq!(e.total_lines(), 2);
    assert_eq!(block(&mut e, 1, 1), b"b\n".to_vec());
    assert_eq!(block(&mut e, 0, 1), b"a\r\n".to_vec());
    assert_eq!(e.save_bytes(), b"a\rb\n".to_vec());
}

#[test]
fn deletion_past_end_truncates() {
    let mut e = engine_from(b"a\nb\nc\n");
    e.apply_edit(1, 99, b"");
    assert_eq!(e.total_lines(), 1);
    assert_eq!(block(&mut e, 0, 1), b"a\n".to_vec());
}

#[test]
fn edit_past_end_appends() {
    let mut e = engine_from(b"a\n");
    e.apply_edit(10, 0, b"tail");
    assert_eq!(e.total_lines(), 2);
    assert_eq!(block(&mut e, 0, 2), b"a\ntail\n".to_vec());
}

#[test]
fn replacement_text_without_lf_is_one_line() {
    let mut e = engine_from(b"a\nb\n");
    e.apply_edit(0, 1, b"solo");
    assert_eq!(e.total_lines(), 2);
    assert_eq!(block(&mut e, 0, 2), b"solo\nb\n".to_vec());
}

#[test]
fn search_finds_memory_lines() {
    let mut e = engine_from(b"one\ntwo\n");
    e.apply_edit(1, 0, b"aXb\n");
    assert_eq!(e.search(b"X", 0), Some(1));
    assert_eq!(e.search(b"two", 0), Some(2));
    assert_eq!(e.search_backward(b"one", 2), Some(0));
}

#[test]
fn resolver_handles_many_windows() {
    // three windows, lines crossing window boundaries
    let mut data = Vec::new();
    while data.len() < 2 * 1048576 + 100 {
        data.extend_from_slice(b"0123456789\n");
    }
    let e = engine_from(&data);
    let n = e.total_lines();
    assert_eq!(n, data.len() / 11);
    assert_eq!(e.search(b"9", n - 1), Some(n - 1));
}
