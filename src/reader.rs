use vstd::prelude::*;
use vstd::utf8::{decode_utf8, valid_utf8};
use crate::MAX_LINE_BYTES;
use crate::indexer::{NEWLINE, newline_count, count_lines, ends_mid_line, lemma_newline_count_concat};

verus! {

/// The carriage-return byte.
pub const CARRIAGE_RETURN: u8 = 13;

/// The text of the line `c[start..end]` that a newline at `end` ends: a carriage
/// return just before that newline belongs to the line ending.
pub open spec fn terminated_line(c: Seq<u8>, start: int, end: int) -> Seq<u8> {
    if end > start && c[end - 1] == CARRIAGE_RETURN {
        c.subrange(start, end - 1)
    } else {
        c.subrange(start, end)
    }
}

/// The logical lines of `c` from position `i` on, the current line having begun
/// at `start`: a newline or a carriage return and newline end a line, and a
/// last line needs no ending.
pub open spec fn split_lines(c: Seq<u8>, start: int, i: int) -> Seq<Seq<u8>>
    decreases c.len() - i,
{
    if i >= c.len() {
        if start < c.len() {
            seq![c.subrange(start, c.len() as int)]
        } else {
            Seq::empty()
        }
    } else if c[i] == NEWLINE {
        seq![terminated_line(c, start, i)] + split_lines(c, i + 1, i + 1)
    } else {
        split_lines(c, start, i + 1)
    }
}

/// The logical lines of `c`.
pub open spec fn text_lines(c: Seq<u8>) -> Seq<Seq<u8>> {
    split_lines(c, 0, 0)
}

/// The first newline of `c` at or after `i`, or the length of `c`.
pub open spec fn next_newline(c: Seq<u8>, i: int) -> int
    decreases c.len() - i,
{
    if i >= c.len() {
        c.len() as int
    } else if c[i] == NEWLINE {
        i
    } else {
        next_newline(c, i + 1)
    }
}

/// Where the line after one that begins at `start` begins.
pub open spec fn after_line(c: Seq<u8>, start: int) -> int {
    let j = next_newline(c, start);
    if j < c.len() { j + 1 } else { c.len() as int }
}

/// Up to `count` lines, each followed by a newline; a line longer than the
/// ceiling is cut to it and ends the output.
pub open spec fn render(lines: Seq<Seq<u8>>, count: nat) -> Seq<u8>
    decreases count,
{
    if count == 0 || lines.len() == 0 {
        Seq::empty()
    } else if lines[0].len() > MAX_LINE_BYTES {
        lines[0].take(MAX_LINE_BYTES as int).push(NEWLINE)
    } else {
        lines[0].push(NEWLINE) + render(lines.drop_first(), (count - 1) as nat)
    }
}

/// What a window that starts at a line boundary gives for `count` lines after
/// skipping `skip`: nothing when it holds fewer than `skip` lines.
pub open spec fn window_lines(w: Seq<u8>, skip: nat, count: nat) -> Option<Seq<u8>> {
    if text_lines(w).len() < skip {
        None
    } else {
        Some(render(text_lines(w).skip(skip as int), count))
    }
}

proof fn lemma_split_from(c: Seq<u8>, start: int, i: int)
    requires
        0 <= start <= i,
    ensures
        split_lines(c, start, i) == if next_newline(c, i) < c.len() {
            seq![terminated_line(c, start, next_newline(c, i))] + split_lines(
                c,
                next_newline(c, i) + 1,
                next_newline(c, i) + 1,
            )
        } else if start < c.len() {
            seq![c.subrange(start, c.len() as int)]
        } else {
            Seq::<Seq<u8>>::empty()
        },
    decreases c.len() - i,
{
    if i < c.len() && c[i] != NEWLINE {
        lemma_split_from(c, start, i + 1);
    }
}

/// The lines from `start` on: the line that begins there, then the others.
proof fn lemma_lines_at(c: Seq<u8>, start: int)
    requires
        0 <= start <= c.len(),
    ensures
        start == c.len() ==> split_lines(c, start, start) == Seq::<Seq<u8>>::empty(),
        start < c.len() ==> split_lines(c, start, start).len() > 0,
        start < c.len() ==> split_lines(c, start, start)[0] == (if next_newline(c, start)
            < c.len() {
            terminated_line(c, start, next_newline(c, start))
        } else {
            c.subrange(start, c.len() as int)
        }),
        start < c.len() ==> split_lines(c, start, start).drop_first() == split_lines(
            c,
            after_line(c, start),
            after_line(c, start),
        ),
{
    lemma_split_from(c, start, start);
    if start < c.len() {
        let j = next_newline(c, start);
        if j < c.len() {
            let rest = split_lines(c, j + 1, j + 1);
            assert((seq![terminated_line(c, start, j)] + rest).drop_first() =~= rest);
        } else {
            assert(split_lines(c, c.len() as int, c.len() as int) =~= Seq::<Seq<u8>>::empty());
            assert(seq![c.subrange(start, c.len() as int)].drop_first() =~= Seq::<
                Seq<u8>,
            >::empty());
        }
    }
}

proof fn lemma_next_newline_bounds(c: Seq<u8>, i: int)
    requires
        0 <= i,
    ensures
        i <= c.len() ==> i <= next_newline(c, i) <= c.len(),
        next_newline(c, i) < c.len() ==> c[next_newline(c, i)] == NEWLINE,
    decreases c.len() - i,
{
    if i < c.len() && c[i] != NEWLINE {
        lemma_next_newline_bounds(c, i + 1);
    }
}

/// Position of the first newline of `w` at or after `from`, or the length of `w`.
pub fn find_newline(w: &[u8], from: usize) -> (r: usize)
    requires
        from <= w@.len(),
    ensures
        r == next_newline(w@, from as int),
        from <= r <= w@.len(),
{
    let mut j = from;
    while j < w.len() && w[j] != NEWLINE
        invariant
            from <= j <= w@.len(),
            next_newline(w@, from as int) == next_newline(w@, j as int),
        decreases w@.len() - j,
    {
        j = j + 1;
    }
    j
}

/// Where the line that begins at `start` ends, without its line ending, and
/// where the next line begins.
fn line_bounds(w: &[u8], start: usize) -> (r: (usize, usize))
    requires
        start < w@.len(),
    ensures
        start <= r.0 <= w@.len(),
        r.1 == after_line(w@, start as int),
        w@.subrange(start as int, r.0 as int) == split_lines(w@, start as int, start as int)[0],
{
    let j = find_newline(w, start);
    proof {
        lemma_lines_at(w@, start as int);
        lemma_next_newline_bounds(w@, start as int);
    }
    if j < w.len() {
        if j > start && w[j - 1] == CARRIAGE_RETURN {
            (j - 1, j + 1)
        } else {
            (j, j + 1)
        }
    } else {
        (j, j)
    }
}

/// Appends `w[from..to]` to `out`.
pub(crate) fn append_range(out: &mut Vec<u8>, w: &[u8], from: usize, to: usize)
    requires
        from <= to <= w@.len(),
    ensures
        final(out)@ == old(out)@ + w@.subrange(from as int, to as int),
{
    let mut k = from;
    while k < to
        invariant
            from <= k <= to <= w@.len(),
            out@ == old(out)@ + w@.subrange(from as int, k as int),
        decreases to - k,
    {
        out.push(w[k]);
        proof {
            assert(w@.subrange(from as int, k + 1) =~= w@.subrange(from as int, k as int).push(
                w@[k as int],
            ));
        }
        k = k + 1;
    }
}

/// Reads `count` lines after skipping `skip` from a window of bytes that starts
/// at a line boundary. Each line is followed by one newline; a line longer than
/// the ceiling is cut to it and ends the output. `None` when the window holds
/// fewer than `skip` lines.
pub fn read_window(w: &[u8], skip: usize, count: usize) -> (r: Option<Vec<u8>>)
    ensures
        r matches Some(v) ==> window_lines(w@, skip as nat, count as nat) == Some(v@),
        r is None ==> window_lines(w@, skip as nat, count as nat) is None,
{
    let ghost all = text_lines(w@);
    let mut start: usize = 0;
    let mut k: usize = 0;
    while k < skip
        invariant
            start <= w@.len(),
            k <= skip,
            k <= all.len(),
            all == text_lines(w@),
            split_lines(w@, start as int, start as int) == all.skip(k as int),
        decreases skip - k,
    {
        proof {
            lemma_lines_at(w@, start as int);
        }
        if start >= w.len() {
            proof {
                assert(all.skip(k as int).len() == 0);
            }
            return None;
        }
        let (_, next) = line_bounds(w, start);
        proof {
            assert(all.skip(k as int).drop_first() =~= all.skip(k + 1));
            lemma_next_newline_bounds(w@, start as int);
        }
        start = next;
        k = k + 1;
    }
    let mut out: Vec<u8> = Vec::new();
    let mut e: usize = 0;
    while e < count && start < w.len()
        invariant
            start <= w@.len(),
            e <= count,
            skip <= all.len(),
            all == text_lines(w@),
            render(all.skip(skip as int), count as nat) == out@ + render(
                split_lines(w@, start as int, start as int),
                (count - e) as nat,
            ),
        decreases count - e,
    {
        proof {
            lemma_lines_at(w@, start as int);
        }
        let (end, next) = line_bounds(w, start);
        let ghost line = w@.subrange(start as int, end as int);
        if end - start > MAX_LINE_BYTES {
            let ghost before = out@;
            append_range(&mut out, w, start, start + MAX_LINE_BYTES);
            out.push(NEWLINE);
            proof {
                assert(line.take(MAX_LINE_BYTES as int) =~= w@.subrange(
                    start as int,
                    start + MAX_LINE_BYTES,
                ));
                assert(out@ =~= before + line.take(MAX_LINE_BYTES as int).push(NEWLINE));
                assert(render(split_lines(w@, start as int, start as int), (count - e) as nat)
                    == line.take(MAX_LINE_BYTES as int).push(NEWLINE));
            }
            return Some(out);
        }
        let ghost before = out@;
        append_range(&mut out, w, start, end);
        out.push(NEWLINE);
        proof {
            lemma_next_newline_bounds(w@, start as int);
            assert(out@ =~= before + line.push(NEWLINE));
            assert(before + (line.push(NEWLINE) + render(
                split_lines(w@, next as int, next as int),
                (count - e - 1) as nat,
            )) =~= out@ + render(split_lines(w@, next as int, next as int), (count - e - 1) as nat));
        }
        start = next;
        e = e + 1;
    }
    proof {
        lemma_lines_at(w@, start as int);
        let rest = split_lines(w@, start as int, start as int);
        assert(render(rest, (count - e) as nat) == Seq::<u8>::empty());
        assert(out@ + Seq::<u8>::empty() =~= out@);
    }
    Some(out)
}

/// Text of `b` decoded as UTF-8, each invalid sequence replaced by U+FFFD.
pub uninterp spec fn lossy_utf8(b: Seq<u8>) -> Seq<char>;

/// Relies on `String::from_utf8_lossy`: it depends on the bytes alone, and bytes
/// that are valid UTF-8 decode to their own text.
#[verifier::external_body]
pub(crate) fn decode_lossy(b: &[u8]) -> (r: String)
    ensures
        r@ == lossy_utf8(b@),
        valid_utf8(b@) ==> r@ == decode_utf8(b@),
{
    String::from_utf8_lossy(b).into_owned()
}

/// The text of one line as read up to and including its newline, if any: the
/// newline and a carriage return before it are dropped.
pub open spec fn raw_line_text(raw: Seq<u8>) -> Seq<u8> {
    if raw.len() > 0 && raw.last() == NEWLINE {
        let body = raw.drop_last();
        if body.len() > 0 && body.last() == CARRIAGE_RETURN {
            body.drop_last()
        } else {
            body
        }
    } else {
        raw
    }
}

/// The state of a sequential read: lines still to skip, lines still wanted,
/// the output so far, and whether an overlong line has ended it.
pub struct CollectState {
    pub to_skip: nat,
    pub remaining: nat,
    pub out: Seq<u8>,
    pub done: bool,
}

/// One more line read from the file.
pub open spec fn collect_step(st: CollectState, raw: Seq<u8>) -> CollectState {
    if st.done || st.remaining == 0 {
        st
    } else if st.to_skip > 0 {
        CollectState { to_skip: (st.to_skip - 1) as nat, ..st }
    } else if raw_line_text(raw).len() > MAX_LINE_BYTES {
        CollectState {
            out: st.out + raw_line_text(raw).take(MAX_LINE_BYTES as int).push(NEWLINE),
            done: true,
            ..st
        }
    } else {
        CollectState {
            out: st.out + raw_line_text(raw).push(NEWLINE),
            remaining: (st.remaining - 1) as nat,
            ..st
        }
    }
}

/// Reads lines one at a time when no mapped window is at hand: skips some,
/// then keeps up to a number of them under the same rules as a window read.
pub struct LineCollector {
    to_skip: usize,
    remaining: usize,
    out: Vec<u8>,
    done: bool,
}

impl LineCollector {
    pub closed spec fn state(&self) -> CollectState {
        CollectState {
            to_skip: self.to_skip as nat,
            remaining: self.remaining as nat,
            out: self.out@,
            done: self.done,
        }
    }

    pub fn new(skip: usize, count: usize) -> (r: Self)
        ensures
            r.state() == (CollectState {
                to_skip: skip as nat,
                remaining: count as nat,
                out: Seq::empty(),
                done: false,
            }),
    {
        LineCollector { to_skip: skip, remaining: count, out: Vec::new(), done: false }
    }

    /// Whether more lines are wanted.
    pub fn wants_more(&self) -> (r: bool)
        ensures
            r == (!self.state().done && self.state().remaining > 0),
    {
        !self.done && self.remaining > 0
    }

    /// Takes the next line of the file, as read up to and including its newline.
    pub fn accept(&mut self, raw: &[u8])
        ensures
            final(self).state() == collect_step(old(self).state(), raw@),
    {
        if self.done || self.remaining == 0 {
            return;
        }
        if self.to_skip > 0 {
            self.to_skip = self.to_skip - 1;
            return;
        }
        let mut end = raw.len();
        if end > 0 && raw[end - 1] == NEWLINE {
            end = end - 1;
            if end > 0 && raw[end - 1] == CARRIAGE_RETURN {
                end = end - 1;
            }
        }
        proof {
            let body = raw@.drop_last();
            if raw@.len() > 0 && raw@.last() == NEWLINE {
                if body.len() > 0 && body.last() == CARRIAGE_RETURN {
                    assert(raw_line_text(raw@) =~= raw@.subrange(0, end as int));
                } else {
                    assert(raw_line_text(raw@) =~= raw@.subrange(0, end as int));
                }
            } else {
                assert(raw_line_text(raw@) =~= raw@.subrange(0, end as int));
            }
        }
        let ghost line = raw@.subrange(0, end as int);
        let ghost before = self.out@;
        if end > MAX_LINE_BYTES {
            append_range(&mut self.out, raw, 0, MAX_LINE_BYTES);
            self.out.push(NEWLINE);
            proof {
                assert(line.take(MAX_LINE_BYTES as int) =~= raw@.subrange(0, MAX_LINE_BYTES as int));
                assert(self.out@ =~= before + line.take(MAX_LINE_BYTES as int).push(NEWLINE));
            }
            self.done = true;
        } else {
            append_range(&mut self.out, raw, 0, end);
            self.out.push(NEWLINE);
            proof {
                assert(self.out@ =~= before + line.push(NEWLINE));
            }
            self.remaining = self.remaining - 1;
        }
    }

    /// The lines kept, as text.
    pub fn into_text(self) -> (r: String)
        ensures
            r@ == lossy_utf8(self.state().out),
    {
        decode_lossy(self.out.as_slice())
    }
}

/// Whether no byte of `s` is a newline.
pub open spec fn no_newline(s: Seq<u8>) -> bool {
    forall|k: int| 0 <= k < s.len() ==> s[k] != NEWLINE
}

/// Whether no line of `ls` is longer than the ceiling.
pub open spec fn within_ceiling(ls: Seq<Seq<u8>>) -> bool {
    forall|k: int| 0 <= k < ls.len() ==> #[trigger] ls[k].len() <= MAX_LINE_BYTES
}

proof fn lemma_no_newline_count(s: Seq<u8>)
    requires
        no_newline(s),
    ensures
        newline_count(s) == 0,
    decreases s.len(),
{
    if s.len() > 0 {
        lemma_no_newline_count(s.drop_last());
    }
}

proof fn lemma_split_count(c: Seq<u8>, start: int, i: int)
    requires
        0 <= start <= i <= c.len(),
        forall|k: int| start <= k < i ==> c[k] != NEWLINE,
    ensures
        split_lines(c, start, i).len() == newline_count(c.subrange(i, c.len() as int)) + if ends_mid_line(
            c.subrange(start, c.len() as int),
        ) {
            1nat
        } else {
            0nat
        },
    decreases c.len() - i,
{
    let tail = c.subrange(i, c.len() as int);
    let whole = c.subrange(start, c.len() as int);
    assert(whole.len() > 0 ==> whole.last() == c[c.len() - 1]);
    if i == c.len() {
        assert(tail =~= Seq::<u8>::empty());
        assert(newline_count(tail) == 0);
        if start < c.len() {
            assert(c[c.len() - 1] != NEWLINE);
            assert(ends_mid_line(whole));
            assert(split_lines(c, start, i).len() == 1);
        } else {
            assert(!ends_mid_line(whole));
            assert(split_lines(c, start, i).len() == 0);
        }
    } else {
        let rest = c.subrange(i + 1, c.len() as int);
        assert(tail =~= seq![c[i]] + rest);
        lemma_newline_count_concat(seq![c[i]], rest);
        assert(seq![c[i]].drop_last() =~= Seq::<u8>::empty());
        assert(newline_count(Seq::<u8>::empty()) == 0);
        assert(newline_count(seq![c[i]]) == if c[i] == NEWLINE { 1nat } else { 0nat });
        if c[i] == NEWLINE {
            lemma_split_count(c, i + 1, i + 1);
            assert(split_lines(c, start, i) == seq![terminated_line(c, start, i)] + split_lines(
                c,
                i + 1,
                i + 1,
            ));
            if i + 1 < c.len() {
                assert(rest.last() == c[c.len() - 1]);
                assert(ends_mid_line(whole) == ends_mid_line(rest));
            } else {
                assert(rest.len() == 0);
                assert(whole.last() == c[i]);
                assert(!ends_mid_line(whole));
            }
        } else {
            lemma_split_count(c, start, i + 1);
            assert(split_lines(c, start, i) == split_lines(c, start, i + 1));
        }
    }
}

/// The lines a read sees are the lines the scan counts: a file holds
/// `count_lines` logical lines.
pub proof fn lemma_lines_match_count(c: Seq<u8>)
    ensures
        text_lines(c).len() == count_lines(c),
{
    lemma_split_count(c, 0, 0);
    assert(c.subrange(0, c.len() as int) =~= c);
}

proof fn lemma_split_no_newline(c: Seq<u8>, start: int, i: int)
    requires
        0 <= start <= i <= c.len(),
        forall|k: int| start <= k < i ==> c[k] != NEWLINE,
    ensures
        forall|j: int|
            0 <= j < split_lines(c, start, i).len() ==> no_newline(
                #[trigger] split_lines(c, start, i)[j],
            ),
    decreases c.len() - i,
{
    let ls = split_lines(c, start, i);
    if i >= c.len() {
        if start < c.len() {
            let only = c.subrange(start, c.len() as int);
            assert(ls == seq![only]);
            assert forall|k: int| 0 <= k < only.len() implies only[k] != NEWLINE by {
                assert(only[k] == c[start + k]);
            }
        }
    } else if c[i] == NEWLINE {
        lemma_split_no_newline(c, i + 1, i + 1);
        let first = terminated_line(c, start, i);
        assert forall|k: int| 0 <= k < first.len() implies first[k] != NEWLINE by {
            assert(first[k] == c[start + k]);
        }
        let rest = split_lines(c, i + 1, i + 1);
        assert(ls == seq![first] + rest);
        assert forall|j: int| 0 <= j < ls.len() implies no_newline(#[trigger] ls[j]) by {
            if j > 0 {
                assert(ls[j] == rest[j - 1]);
            } else {
                assert(ls[j] == first);
            }
        }
    } else {
        lemma_split_no_newline(c, start, i + 1);
        assert(ls == split_lines(c, start, i + 1));
    }
}

proof fn lemma_render_newlines(ls: Seq<Seq<u8>>, k: nat)
    requires
        within_ceiling(ls),
        forall|j: int| 0 <= j < ls.len() ==> no_newline(#[trigger] ls[j]),
    ensures
        newline_count(render(ls, k)) == if k <= ls.len() { k } else { ls.len() },
    decreases k,
{
    if k > 0 && ls.len() > 0 {
        let rest = ls.drop_first();
        assert forall|j: int| 0 <= j < rest.len() implies no_newline(#[trigger] rest[j]) by {
            assert(rest[j] == ls[j + 1]);
        }
        assert(within_ceiling(rest)) by {
            assert forall|j: int| 0 <= j < rest.len() implies #[trigger] rest[j].len()
                <= MAX_LINE_BYTES by {
                assert(rest[j] == ls[j + 1]);
            }
        }
        lemma_render_newlines(rest, (k - 1) as nat);
        assert(ls[0].len() <= MAX_LINE_BYTES);
        lemma_no_newline_count(ls[0]);
        assert(ls[0].push(NEWLINE).drop_last() =~= ls[0]);
        lemma_newline_count_concat(ls[0].push(NEWLINE), render(rest, (k - 1) as nat));
    }
}

/// A read of `count` lines from line `skip` of a file gives exactly as many
/// lines as the file holds from there, up to `count`, each being the file's
/// line at that place followed by a newline; lines over the ceiling are left
/// out of this statement, since one ends the read.
pub proof fn lemma_read_gives_requested_lines(c: Seq<u8>, skip: nat, count: nat)
    requires
        skip <= count_lines(c),
        within_ceiling(text_lines(c)),
    ensures
        window_lines(c, skip, count) == Some(render(text_lines(c).skip(skip as int), count)),
        newline_count(render(text_lines(c).skip(skip as int), count)) == if count <= count_lines(c)
            - skip {
            count as int
        } else {
            count_lines(c) - skip
        },
{
    lemma_lines_match_count(c);
    lemma_split_no_newline(c, 0, 0);
    let ls = text_lines(c).skip(skip as int);
    assert forall|j: int| 0 <= j < ls.len() implies no_newline(#[trigger] ls[j]) by {
        assert(ls[j] == text_lines(c)[j + skip]);
    }
    assert(within_ceiling(ls)) by {
        assert forall|j: int| 0 <= j < ls.len() implies #[trigger] ls[j].len() <= MAX_LINE_BYTES by {
            assert(ls[j] == text_lines(c)[j + skip]);
        }
    }
    lemma_render_newlines(ls, count);
}

proof fn lemma_render_split(ls: Seq<Seq<u8>>, a: nat, b: nat)
    requires
        a <= ls.len(),
        forall|k: int| 0 <= k < a ==> #[trigger] ls[k].len() <= MAX_LINE_BYTES,
    ensures
        render(ls, a + b) == render(ls, a) + render(ls.skip(a as int), b),
    decreases a,
{
    if a == 0 {
        assert(ls.skip(0) =~= ls);
        assert(Seq::<u8>::empty() + render(ls, b) =~= render(ls, b));
    } else {
        let rest = ls.drop_first();
        assert forall|k: int| 0 <= k < a - 1 implies #[trigger] rest[k].len() <= MAX_LINE_BYTES by {
            assert(rest[k] == ls[k + 1]);
        }
        assert(ls[0].len() <= MAX_LINE_BYTES);
        lemma_render_split(rest, (a - 1) as nat, b);
        assert(rest.skip(a - 1) =~= ls.skip(a as int));
        assert((a + b - 1) as nat == (a - 1) as nat + b);
        let x = ls[0].push(NEWLINE);
        assert(x + (render(rest, (a - 1) as nat) + render(rest.skip(a - 1), b)) =~= (x + render(
            rest,
            (a - 1) as nat,
        )) + render(rest.skip(a - 1), b));
    }
}

/// Reads compose: `count` lines from `start`, then `more` lines from where
/// those ended, give what one read of `count + more` lines from `start` gives,
/// as long as the first part holds no line over the ceiling. So reads of
/// overlapping ranges agree with one read of their union.
pub proof fn lemma_reads_compose(c: Seq<u8>, start: nat, count: nat, more: nat)
    requires
        start + count <= count_lines(c),
        forall|k: int|
            start <= k < start + count ==> #[trigger] text_lines(c)[k].len() <= MAX_LINE_BYTES,
    ensures
        window_lines(c, start, count + more) == Some(
            window_lines(c, start, count)->0 + window_lines(c, start + count, more)->0,
        ),
{
    lemma_lines_match_count(c);
    let ls = text_lines(c).skip(start as int);
    assert forall|k: int| 0 <= k < count implies #[trigger] ls[k].len() <= MAX_LINE_BYTES by {
        assert(ls[k] == text_lines(c)[k + start]);
    }
    lemma_render_split(ls, count, more);
    assert(ls.skip(count as int) =~= text_lines(c).skip((start + count) as int));
}

/// The lines from `start` on, past the first `newline_count(c[i..off])`, are
/// the lines from `off` on, when `off` follows a newline.
pub proof fn lemma_split_skip(c: Seq<u8>, start: int, i: int, off: int)
    requires
        0 <= start <= i <= off <= c.len(),
        forall|k: int| start <= k < i ==> c[k] != NEWLINE,
        off == start || c[off - 1] == NEWLINE,
    ensures
        split_lines(c, start, i).len() >= newline_count(c.subrange(i, off)),
        split_lines(c, start, i).skip(newline_count(c.subrange(i, off)) as int) == split_lines(
            c,
            off,
            off,
        ),
    decreases off - i,
{
    let ls = split_lines(c, start, i);
    if i == off {
        assert(c.subrange(i, off) =~= Seq::<u8>::empty());
        assert(newline_count(Seq::<u8>::empty()) == 0);
        if start < off {
            assert(c[off - 1] != NEWLINE);
        }
        assert(ls.skip(0) =~= ls);
    } else {
        let rest_bytes = c.subrange(i + 1, off);
        assert(c.subrange(i, off) =~= seq![c[i]] + rest_bytes);
        lemma_newline_count_concat(seq![c[i]], rest_bytes);
        assert(seq![c[i]].drop_last() =~= Seq::<u8>::empty());
        assert(newline_count(Seq::<u8>::empty()) == 0);
        if c[i] == NEWLINE {
            lemma_split_skip(c, i + 1, i + 1, off);
            let rest = split_lines(c, i + 1, i + 1);
            assert(ls == seq![terminated_line(c, start, i)] + rest);
            let n = newline_count(rest_bytes);
            assert(ls.skip((n + 1) as int) =~= rest.skip(n as int));
        } else {
            lemma_split_skip(c, start, i + 1, off);
            assert(ls == split_lines(c, start, i + 1));
        }
    }
}

/// The lines of `c` from `off + i` on are those of `c[off..]` from `i` on.
pub proof fn lemma_split_shift(c: Seq<u8>, off: int, s: int, i: int)
    requires
        0 <= off <= c.len(),
        0 <= s <= i,
    ensures
        split_lines(c, off + s, off + i) == split_lines(c.subrange(off, c.len() as int), s, i),
    decreases c.len() - off - i,
{
    let d = c.subrange(off, c.len() as int);
    if off + i >= c.len() {
        if s < d.len() {
            assert(d.subrange(s, d.len() as int) =~= c.subrange(off + s, c.len() as int));
        }
    } else {
        assert(d[i] == c[off + i]);
        if c[off + i] == NEWLINE {
            lemma_split_shift(c, off, i + 1, i + 1);
            if i > s {
                assert(d[i - 1] == c[off + i - 1]);
            }
            assert(d.subrange(s, i) =~= c.subrange(off + s, off + i));
            if i > s {
                assert(d.subrange(s, i - 1) =~= c.subrange(off + s, off + i - 1));
            }
            assert(terminated_line(d, s, i) == terminated_line(c, off + s, off + i));
        } else {
            lemma_split_shift(c, off, s, i + 1);
        }
    }
}

/// The pieces that reading `c` up to and including each newline yields, from
/// position `i` on, the current piece having begun at `start`.
pub open spec fn raw_pieces(c: Seq<u8>, start: int, i: int) -> Seq<Seq<u8>>
    decreases c.len() - i,
{
    if i >= c.len() {
        if start < c.len() {
            seq![c.subrange(start, c.len() as int)]
        } else {
            Seq::empty()
        }
    } else if c[i] == NEWLINE {
        seq![c.subrange(start, i + 1)] + raw_pieces(c, i + 1, i + 1)
    } else {
        raw_pieces(c, start, i + 1)
    }
}

/// The state after taking every piece of `raws` in order.
pub open spec fn collect_all(st: CollectState, raws: Seq<Seq<u8>>) -> CollectState
    decreases raws.len(),
{
    if raws.len() == 0 {
        st
    } else {
        collect_all(collect_step(st, raws[0]), raws.drop_first())
    }
}

proof fn lemma_pieces_text(c: Seq<u8>, start: int, i: int)
    requires
        0 <= start <= i <= c.len(),
        forall|k: int| start <= k < i ==> c[k] != NEWLINE,
    ensures
        raw_pieces(c, start, i).len() == split_lines(c, start, i).len(),
        forall|j: int|
            0 <= j < raw_pieces(c, start, i).len() ==> raw_line_text(
                #[trigger] raw_pieces(c, start, i)[j],
            ) == split_lines(c, start, i)[j],
    decreases c.len() - i,
{
    let rs = raw_pieces(c, start, i);
    let ls = split_lines(c, start, i);
    if i >= c.len() {
        if start < c.len() {
            let only = c.subrange(start, c.len() as int);
            assert(only.last() == c[c.len() - 1]);
            assert(c[c.len() - 1] != NEWLINE);
            assert(raw_line_text(only) == only);
        }
    } else if c[i] == NEWLINE {
        lemma_pieces_text(c, i + 1, i + 1);
        let piece = c.subrange(start, i + 1);
        assert(piece.last() == NEWLINE);
        assert(piece.drop_last() =~= c.subrange(start, i));
        if i > start {
            assert(c.subrange(start, i).last() == c[i - 1]);
            assert(c.subrange(start, i).drop_last() =~= c.subrange(start, i - 1));
        }
        assert(raw_line_text(piece) == terminated_line(c, start, i));
        let rrest = raw_pieces(c, i + 1, i + 1);
        let lrest = split_lines(c, i + 1, i + 1);
        assert(rs == seq![piece] + rrest);
        assert(ls == seq![terminated_line(c, start, i)] + lrest);
        assert forall|j: int| 0 <= j < rs.len() implies raw_line_text(#[trigger] rs[j]) == ls[j] by {
            if j > 0 {
                assert(rs[j] == rrest[j - 1]);
                assert(ls[j] == lrest[j - 1]);
            }
        }
    } else {
        lemma_pieces_text(c, start, i + 1);
        assert(rs == raw_pieces(c, start, i + 1));
        assert(ls == split_lines(c, start, i + 1));
    }
}

proof fn lemma_collect_idle(st: CollectState, raws: Seq<Seq<u8>>)
    requires
        st.done || st.remaining == 0,
    ensures
        collect_all(st, raws) == st,
    decreases raws.len(),
{
    if raws.len() > 0 {
        lemma_collect_idle(st, raws.drop_first());
    }
}

proof fn lemma_collect_render(raws: Seq<Seq<u8>>, ls: Seq<Seq<u8>>, skip: nat, count: nat, out: Seq<u8>)
    requires
        raws.len() == ls.len(),
        forall|j: int| 0 <= j < raws.len() ==> raw_line_text(#[trigger] raws[j]) == ls[j],
        skip <= ls.len(),
    ensures
        collect_all(
            CollectState { to_skip: skip, remaining: count, out, done: false },
            raws,
        ).out == out + render(ls.skip(skip as int), count),
    decreases raws.len(),
{
    let st = CollectState { to_skip: skip, remaining: count, out, done: false };
    let rest = raws.drop_first();
    let lrest = ls.drop_first();
    if raws.len() > 0 {
        assert forall|j: int| 0 <= j < rest.len() implies raw_line_text(#[trigger] rest[j])
            == lrest[j] by {
            assert(rest[j] == raws[j + 1]);
            assert(raw_line_text(raws[j + 1]) == ls[j + 1]);
        }
    }
    if count == 0 {
        lemma_collect_idle(st, raws);
        assert(out + Seq::<u8>::empty() =~= out);
    } else if raws.len() == 0 {
        assert(ls.skip(skip as int) =~= Seq::<Seq<u8>>::empty());
        assert(out + Seq::<u8>::empty() =~= out);
    } else if skip > 0 {
        lemma_collect_render(rest, lrest, (skip - 1) as nat, count, out);
        assert(lrest.skip(skip - 1) =~= ls.skip(skip as int));
    } else {
        assert(raw_line_text(raws[0]) == ls[0]);
        assert(ls.skip(0) =~= ls);
        let line = ls[0];
        if line.len() > MAX_LINE_BYTES {
            let next = collect_step(st, raws[0]);
            lemma_collect_idle(next, rest);
        } else {
            let next_out = out + line.push(NEWLINE);
            lemma_collect_render(rest, lrest, 0, (count - 1) as nat, next_out);
            assert(lrest.skip(0) =~= lrest);
            assert(next_out + render(lrest, (count - 1) as nat) =~= out + (line.push(NEWLINE)
                + render(lrest, (count - 1) as nat)));
        }
    }
}

/// Reading line by line gives what a window read gives: a collector that is
/// handed every line of `c` in order, as read up to and including its newline,
/// ends with the same text as `read_window` on `c`.
pub proof fn lemma_sequential_read(c: Seq<u8>, skip: nat, count: nat)
    requires
        skip <= count_lines(c),
    ensures
        collect_all(
            CollectState { to_skip: skip, remaining: count, out: Seq::empty(), done: false },
            raw_pieces(c, 0, 0),
        ).out == window_lines(c, skip, count)->0,
        window_lines(c, skip, count) is Some,
{
    lemma_lines_match_count(c);
    lemma_pieces_text(c, 0, 0);
    lemma_collect_render(raw_pieces(c, 0, 0), text_lines(c), skip, count, Seq::empty());
    assert(Seq::<u8>::empty() + render(text_lines(c).skip(skip as int), count) =~= render(
        text_lines(c).skip(skip as int),
        count,
    ));
}

} // verus!
