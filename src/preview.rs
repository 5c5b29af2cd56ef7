use vstd::prelude::*;
use crate::indexer::{LineIndex, count_lines, ends_lines, newline_count, ends_mid_line};
use crate::reader::{
    decode_lossy, lossy_utf8, read_window, window_lines, LineCollector, CollectState, render,
    text_lines, lemma_lines_match_count, lemma_split_skip, lemma_split_shift,
};
use crate::search::{reports_search, search_bytes, SearchOutcome};
use crate::window::{window_request, aligned_start, wanted_len};

verus! {

/// Where a read of line `start` begins: the byte offset and line number of the
/// last checkpoint at or before it, or the start of the file.
pub open spec fn anchor_of(index: Seq<u64>, interval: nat, start: nat) -> (u64, nat) {
    let k = start / interval;
    if k == 0 || k - 1 >= index.len() {
        (0u64, 0nat)
    } else {
        (index[k - 1], k * interval)
    }
}

/// A read anchored at a checkpoint sees the file's own lines: when every
/// checkpoint ends its lines, the bytes from the anchor's offset on, skipped
/// to line `start`, give the lines of the file from `start` on.
pub proof fn lemma_anchored_read(
    c: Seq<u8>,
    index: Seq<u64>,
    interval: nat,
    start: nat,
    count: nat,
)
    requires
        interval > 0,
        forall|k: int|
            0 <= k < index.len() ==> ends_lines(c, #[trigger] index[k] as int, ((k + 1) * interval) as nat),
        start < count_lines(c),
    ensures
        anchor_of(index, interval, start).0 <= c.len(),
        anchor_of(index, interval, start).1 <= start,
        window_lines(
            c.subrange(anchor_of(index, interval, start).0 as int, c.len() as int),
            (start - anchor_of(index, interval, start).1) as nat,
            count,
        ) == Some(render(text_lines(c).skip(start as int), count)),
{
    lemma_lines_match_count(c);
    let (o, b) = anchor_of(index, interval, start);
    let k = start / interval;
    assert(k * interval <= start) by (nonlinear_arith)
        requires
            k == start / interval,
            interval > 0,
    ;
    if k == 0 || k - 1 >= index.len() {
        assert(c.subrange(0, c.len() as int) =~= c);
    } else {
        assert(ends_lines(c, index[k - 1] as int, ((k - 1 + 1) * interval) as nat));
        assert(o == index[k - 1] && b == k * interval);
        let d = c.subrange(o as int, c.len() as int);
        if o == c.len() {
            assert(c.take(o as int) =~= c);
            assert(false);
        }
        assert(c[o - 1] == crate::indexer::NEWLINE);
        let pre = c.take(o as int);
        assert(pre.last() == c[o - 1]);
        assert(!ends_mid_line(pre));
        assert(newline_count(pre) == b);
        lemma_split_skip(c, 0, 0, o as int);
        assert(c.subrange(0, o as int) =~= pre);
        lemma_split_shift(c, o as int, 0, 0);
        assert(text_lines(d) == text_lines(c).skip(b as int));
        assert(text_lines(d).skip(start - b) =~= text_lines(c).skip(start as int));
    }
}

/// One open file: its line count and sparse index, computed once.
pub struct LargeFilePreview {
    pub total_lines: usize,
    pub index: Vec<u64>,
    pub index_interval: usize,
}

impl LargeFilePreview {
    pub open spec fn wf(&self) -> bool {
        self.index_interval > 0
    }

    pub open spec fn anchor_spec(&self, start: nat) -> (u64, nat) {
        anchor_of(self.index@, self.index_interval as nat, start)
    }

    /// The session for a scanned file.
    pub fn from_index(idx: LineIndex) -> (r: Self)
        requires
            idx.interval > 0,
        ensures
            r.wf(),
            r.total_lines == idx.total_lines,
            r.index@ == idx.index@,
            r.index_interval == idx.interval,
    {
        LargeFilePreview {
            total_lines: idx.total_lines,
            index: idx.index,
            index_interval: idx.interval,
        }
    }

    pub fn total_lines(&self) -> (r: usize)
        ensures
            r == self.total_lines,
    {
        self.total_lines
    }

    /// The checkpoint to start reading line `start` from.
    pub fn anchor(&self, start: usize) -> (r: (u64, usize))
        requires
            self.wf(),
        ensures
            r.0 == self.anchor_spec(start as nat).0,
            r.1 == self.anchor_spec(start as nat).1,
            r.1 <= start,
    {
        let k = start / self.index_interval;
        proof {
            assert(k * self.index_interval <= start) by (nonlinear_arith)
                requires
                    k == start / self.index_interval,
                    self.index_interval > 0,
            ;
        }
        if k == 0 || k - 1 >= self.index.len() {
            (0, 0)
        } else {
            (self.index[k - 1], k * self.index_interval)
        }
    }

    /// The window to map for reading `count` lines from line `start`: its
    /// page-aligned start and its length before clipping to the file.
    pub fn window_for(&self, start: usize, count: usize) -> (r: (u64, usize))
        requires
            self.wf(),
        ensures
            r.0 == aligned_start(self.anchor_spec(start as nat).0),
            r.1 == wanted_len(self.anchor_spec(start as nat).0, count, self.index_interval),
    {
        let (offset, _) = self.anchor(start);
        window_request(offset, count, self.index_interval)
    }

    /// Reads `count` lines from line `start` out of `window`, the bytes of the
    /// file from the anchor's offset on. Past the last line the text is empty.
    /// `None` when the window ends before line `start`.
    pub fn read_lines(&self, start: usize, count: usize, window: &[u8]) -> (r: Option<String>)
        requires
            self.wf(),
        ensures
            start >= self.total_lines ==> (r matches Some(s) && s@ == Seq::<char>::empty()),
            start < self.total_lines ==> match window_lines(
                window@,
                (start - self.anchor_spec(start as nat).1) as nat,
                count as nat,
            ) {
                Some(b) => (r matches Some(s) && s@ == lossy_utf8(b)),
                None => r is None,
            },
    {
        if start >= self.total_lines {
            return Some(String::new());
        }
        let (_, base_line) = self.anchor(start);
        match read_window(window, start - base_line, count) {
            Some(bytes) => Some(decode_lossy(bytes.as_slice())),
            None => None,
        }
    }

    /// A sequential reader for line `start` on, to be fed the lines of the file
    /// from the anchor's offset when no window can be mapped.
    pub fn line_collector(&self, start: usize, count: usize) -> (r: LineCollector)
        requires
            self.wf(),
        ensures
            r.state() == (CollectState {
                to_skip: (start - self.anchor_spec(start as nat).1) as nat,
                remaining: count as nat,
                out: Seq::empty(),
                done: false,
            }),
    {
        let (_, base_line) = self.anchor(start);
        LineCollector::new(start - base_line, count)
    }

    /// Searches the whole file, given as `content`.
    pub fn mmap_search(&self, content: &[u8], needle: &[u8], ignore_case: bool) -> (r:
        SearchOutcome)
        requires
            needle@.len() > 0,
        ensures
            reports_search(r, content@, needle@, ignore_case),
    {
        search_bytes(content, needle, ignore_case)
    }
}

} // verus!
