use large_file_preview::indexer::{LineIndex, LineIndexer};
use large_file_preview::preview::LargeFilePreview;
use large_file_preview::reader::{find_newline, read_window, LineCollector};
use large_file_preview::search::{lower_ascii, search_bytes, MatchPos};
use large_file_preview::window::{clip_window, window_covers, window_request};
use large_file_preview::MAX_LINE_BYTES;

fn index_of(content: &[u8], interval: usize, chunk: usize) -> LineIndex {
    let mut ix = LineIndexer::new(interval);
    for part in content.chunks(chunk) {
        ix.feed(part);
    }
    ix.finish()
}

fn preview_of(content: &[u8], interval: usize) -> LargeFilePreview {
    LargeFilePreview::from_index(index_of(content, interval, 64 * 1024))
}

fn read(p: &LargeFilePreview, content: &[u8], start: usize, count: usize) -> String {
    let (offset, _) = p.anchor(start);
    p.read_lines(start, count, &content[offset as usize..]).unwrap()
}

#[test]
fn counts_terminated_and_final_segments() {
    assert_eq!(index_of(b"a\nb\nc", 1000, 4).total_lines, 3);
    assert_eq!(index_of(b"a\nb\n", 1000, 4).total_lines, 2);
    assert_eq!(index_of(b"", 1000, 4).total_lines, 0);
    assert_eq!(index_of(b"\n\n", 1000, 4).total_lines, 2);
    assert_eq!(index_of(b"x", 1000, 4).total_lines, 1);
}

#[test]
fn count_does_not_depend_on_chunking() {
    let content = b"one\ntwo\r\nthree\n\nfive";
    for chunk in 1..content.len() + 1 {
        assert_eq!(index_of(content, 2, chunk).total_lines, 5);
    }
}

#[test]
fn index_records_every_interval() {
    let idx = index_of(b"aa\nb\ncc\nd\ne", 2, 3);
    assert_eq!(idx.total_lines, 5);
    assert_eq!(idx.index, vec![5u64, 10]);
    assert_eq!(idx.interval, 2);
    let all = index_of(b"aa\nb\ncc\nd\ne", 1, 100);
    assert_eq!(all.index, vec![3u64, 5, 8, 10, 11]);
}

#[test]
fn four_line_scenario() {
    let content = b"alpha\nbeta\nalpha-two\ngamma\n";
    let p = preview_of(content, 1);
    assert_eq!(p.total_lines(), 4);
    assert_eq!(p.index, vec![6u64, 11, 21, 27]);
    assert_eq!(p.anchor(1), (6, 1));
    assert_eq!(read(&p, content, 1, 2), "beta\nalpha-two\n");
    let r = p.mmap_search(content, b"alpha", false);
    assert_eq!(r.count, 2);
    assert_eq!(
        r.matches,
        vec![
            MatchPos { line: 0, column: 0, length: 5 },
            MatchPos { line: 2, column: 0, length: 5 },
        ]
    );
    assert_eq!(r.first_match, Some(MatchPos { line: 0, column: 0, length: 5 }));
    assert_eq!(r.samples, vec!["alpha".to_string(), "alpha-two".to_string()]);
    assert_eq!(r.extra_alloc_bytes, 0);
}

#[test]
fn read_past_end_is_empty() {
    let content = b"a\nb\n";
    let p = preview_of(content, 1000);
    assert_eq!(p.read_lines(2, 5, content), Some(String::new()));
    assert_eq!(p.read_lines(100, 1, content), Some(String::new()));
}

#[test]
fn read_is_cut_at_end_of_file() {
    let content = b"a\nb\nc";
    let p = preview_of(content, 1000);
    assert_eq!(read(&p, content, 1, 10), "b\nc\n");
    assert_eq!(read(&p, content, 0, 0), "");
}

#[test]
fn read_matches_naive_scan() {
    let mut content = Vec::new();
    for i in 0..2500 {
        content.extend_from_slice(format!("line {}\n", i).as_bytes());
    }
    let p = preview_of(&content, 1000);
    assert_eq!(p.total_lines(), 2500);
    assert_eq!(p.index.len(), 2);
    let got = read(&p, &content, 1998, 4);
    assert_eq!(got, "line 1998\nline 1999\nline 2000\nline 2001\n");
    let tail = read(&p, &content, 2497, 10);
    assert_eq!(tail, "line 2497\nline 2498\nline 2499\n");
}

#[test]
fn overlapping_reads_agree_with_union() {
    let content = b"l0\nl1\nl2\nl3\nl4\nl5\n";
    let p = preview_of(content, 1000);
    let union = read(&p, content, 1, 4);
    let a = read(&p, content, 1, 2);
    let b = read(&p, content, 3, 2);
    assert_eq!(format!("{}{}", a, b), union);
    let c = read(&p, content, 2, 2);
    assert_eq!(union, format!("{}{}{}", read(&p, content, 1, 1), c, read(&p, content, 4, 1)));
}

#[test]
fn carriage_returns_end_lines() {
    assert_eq!(read_window(b"a\r\nb\rc\n", 0, 5), Some(b"a\nb\rc\n".to_vec()));
}

#[test]
fn window_short_of_start_gives_none() {
    assert_eq!(read_window(b"a\nb\n", 3, 1), None);
    assert_eq!(read_window(b"a\nb\n", 2, 1), Some(Vec::new()));
}

#[test]
fn overlong_line_is_one_line_and_truncated() {
    let mut content = vec![b'x'; MAX_LINE_BYTES + 1000];
    content.push(b'\n');
    content.extend_from_slice(b"next\n");
    let idx = index_of(&content, 1000, 64 * 1024);
    assert_eq!(idx.total_lines, 2);
    let p = LargeFilePreview::from_index(idx);
    let text = p.read_lines(0, 2, &content).unwrap();
    assert_eq!(text.len(), MAX_LINE_BYTES + 1);
    assert!(text.ends_with('\n'));
    assert!(text[..MAX_LINE_BYTES].bytes().all(|b| b == b'x'));
}

#[test]
fn overlong_unterminated_line_counts_once() {
    let content = vec![b'y'; MAX_LINE_BYTES + 5];
    assert_eq!(index_of(&content, 1, 1 << 20).total_lines, 1);
}

#[test]
fn invalid_utf8_is_replaced() {
    let content = b"ok\n\xff\xfebad\n";
    let p = preview_of(content, 1000);
    assert_eq!(read(&p, content, 1, 1), "\u{fffd}\u{fffd}bad\n");
}

#[test]
fn search_absent_needle() {
    let r = search_bytes(b"hello world\n", b"zzz", false);
    assert_eq!(r.count, 0);
    assert_eq!(r.first_match, None);
    assert!(r.matches.is_empty());
    assert!(r.samples.is_empty());
}

#[test]
fn search_empty_file() {
    let r = search_bytes(b"", b"a", true);
    assert_eq!(r.count, 0);
    assert_eq!(r.extra_alloc_bytes, 0);
    assert_eq!(r.first_match, None);
}

#[test]
fn search_is_non_overlapping() {
    let r = search_bytes(b"aaaa\n", b"aa", false);
    assert_eq!(r.count, 2);
    assert_eq!(r.matches[1], MatchPos { line: 0, column: 2, length: 2 });
    assert_eq!(r.samples.len(), 2);
}

#[test]
fn search_ignoring_case() {
    let hay = b"abc\nxyz AbC\nABX\n";
    let r = search_bytes(hay, b"ABC", true);
    assert_eq!(r.count, 2);
    assert_eq!(r.extra_alloc_bytes, hay.len());
    assert_eq!(r.matches[1], MatchPos { line: 1, column: 4, length: 3 });
    assert_eq!(r.samples, vec!["abc".to_string(), "xyz AbC".to_string()]);
    let s = search_bytes(hay, b"ABC", false);
    assert_eq!(s.count, 0);
    assert_eq!(s.extra_alloc_bytes, 0);
}

#[test]
fn search_caps_records_and_samples() {
    let mut hay = Vec::new();
    for _ in 0..1500 {
        hay.extend_from_slice(b"k\n");
    }
    let r = search_bytes(&hay, b"k", false);
    assert_eq!(r.count, 1500);
    assert_eq!(r.matches.len(), 1000);
    assert_eq!(r.matches[999], MatchPos { line: 999, column: 0, length: 1 });
    assert_eq!(r.samples.len(), 5);
}

#[test]
fn search_columns_count_characters() {
    let hay = "héllo wörld\nzwei wörld\n".as_bytes();
    let r = search_bytes(hay, "wörld".as_bytes(), false);
    assert_eq!(r.count, 2);
    assert_eq!(r.first_match, Some(MatchPos { line: 0, column: 6, length: 5 }));
    assert_eq!(r.matches[1], MatchPos { line: 1, column: 5, length: 5 });
    assert_eq!(r.samples[0], "héllo wörld");
}

#[test]
fn search_invalid_line_has_no_sample() {
    let hay = b"\xffab\nab\n";
    let r = search_bytes(hay, b"ab", false);
    assert_eq!(r.count, 2);
    assert_eq!(r.matches[0], MatchPos { line: 0, column: 0, length: 2 });
    assert_eq!(r.samples, vec!["ab".to_string()]);
}

#[test]
fn lowercases_ascii_only() {
    assert_eq!(lower_ascii("AZaz09É".as_bytes()), "azaz09É".as_bytes().to_vec());
}

#[test]
fn finds_newlines() {
    assert_eq!(find_newline(b"ab\ncd", 0), 2);
    assert_eq!(find_newline(b"ab\ncd", 3), 5);
}

#[test]
fn window_request_aligns_and_caps() {
    assert_eq!(window_request(5000, 10, 1000), (4096, 904 + 1010 * 120));
    assert_eq!(window_request(0, 100000, 1000), (0, 8 * 1024 * 1024));
    assert_eq!(window_request(8192, usize::MAX, 1000), (8192, 8 * 1024 * 1024));
}

#[test]
fn clip_window_to_file() {
    assert_eq!(clip_window(4096, 122104, 10000), 5904);
    assert_eq!(clip_window(4096, 100, 10000), 100);
    assert_eq!(clip_window(8192, 100, 8192), 0);
}

#[test]
fn cached_window_coverage() {
    assert!(window_covers(4096, 8192, 5000, 100));
    assert!(!window_covers(4096, 8192, 4000, 100));
    assert!(!window_covers(4096, 8192, 12000, 500));
    assert!(window_covers(0, 10, 0, 10));
}

#[test]
fn window_for_uses_anchor() {
    let mut content = Vec::new();
    for _ in 0..3000 {
        content.extend_from_slice(b"0123456789\n");
    }
    let p = preview_of(&content, 1000);
    assert_eq!(p.anchor(2500), (22000, 2000));
    assert_eq!(p.window_for(2500, 10), (20480, 1520 + 1010 * 120));
    assert_eq!(p.anchor(999), (0, 0));
}

#[test]
fn collector_skips_then_keeps() {
    let mut c = LineCollector::new(1, 2);
    for raw in [&b"a\n"[..], b"b\r\n", b"c", b"d\n"] {
        if !c.wants_more() {
            break;
        }
        c.accept(raw);
    }
    assert!(!c.wants_more());
    assert_eq!(c.into_text(), "b\nc\n");
}

#[test]
fn collector_stops_after_overlong_line() {
    let p = preview_of(b"", 1000);
    let mut c = p.line_collector(0, 3);
    let mut long = vec![b'z'; MAX_LINE_BYTES + 2];
    long.push(b'\n');
    c.accept(&long);
    assert!(!c.wants_more());
    let text = c.into_text();
    assert_eq!(text.len(), MAX_LINE_BYTES + 1);
}

#[test]
fn sequential_read_matches_window_read() {
    let content = b"first\r\nsecond\n\nfourth\r\nlast";
    for skip in 0..6 {
        for count in 0..7 {
            let mut c = LineCollector::new(skip, count);
            for piece in content.split_inclusive(|b| *b == b'\n') {
                if !c.wants_more() {
                    break;
                }
                c.accept(piece);
            }
            let window = read_window(content, skip, count).unwrap();
            assert_eq!(c.into_text().into_bytes(), window);
        }
    }
}

#[test]
fn index_offsets_start_lines() {
    let content = b"ab\ncde\n\nfghi\nj\nk";
    let idx = index_of(content, 2, 5);
    assert_eq!(idx.total_lines, 6);
    assert_eq!(idx.index, vec![7u64, 13, 16]);
    for (k, off) in idx.index.iter().enumerate() {
        let before = &content[..*off as usize];
        let lines = before.iter().filter(|b| **b == b'\n').count()
            + if before.last().map_or(false, |b| *b != b'\n') { 1 } else { 0 };
        assert_eq!(lines, (k + 1) * 2);
    }
}
