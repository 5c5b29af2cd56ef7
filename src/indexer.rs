use vstd::prelude::*;
use crate::MAX_LINE_BYTES;

verus! {

/// The newline byte.
pub const NEWLINE: u8 = 10;

/// Number of newline bytes in `s`.
pub open spec fn newline_count(s: Seq<u8>) -> nat
    decreases s.len(),
{
    if s.len() == 0 {
        0
    } else {
        newline_count(s.drop_last()) + if s.last() == NEWLINE { 1nat } else { 0nat }
    }
}

pub proof fn lemma_newline_count_bound(s: Seq<u8>)
    ensures
        newline_count(s) <= s.len(),
    decreases s.len(),
{
    if s.len() > 0 {
        lemma_newline_count_bound(s.drop_last());
    }
}

pub proof fn lemma_newline_count_concat(a: Seq<u8>, b: Seq<u8>)
    ensures
        newline_count(a + b) == newline_count(a) + newline_count(b),
    decreases b.len(),
{
    if b.len() == 0 {
        assert(a + b =~= a);
    } else {
        assert((a + b).drop_last() =~= a + b.drop_last());
        lemma_newline_count_concat(a, b.drop_last());
    }
}

/// Whether `s` ends inside a line: it is not empty and its last byte is not a newline.
pub open spec fn ends_mid_line(s: Seq<u8>) -> bool {
    s.len() > 0 && s.last() != NEWLINE
}

/// Number of lines of `s`: each newline ends one, and a final segment without
/// a newline counts as one more.
pub open spec fn count_lines(s: Seq<u8>) -> nat {
    newline_count(s) + if ends_mid_line(s) { 1nat } else { 0nat }
}

/// Number of bytes after the last newline of `s`.
pub open spec fn trailing_run(s: Seq<u8>) -> nat
    decreases s.len(),
{
    if s.len() == 0 || s.last() == NEWLINE {
        0
    } else {
        trailing_run(s.drop_last()) + 1
    }
}

/// Whether every line of `s`, its newline left out, is shorter than the ceiling.
pub open spec fn lines_fit(s: Seq<u8>) -> bool {
    forall|p: int| 0 <= p <= s.len() ==> #[trigger] trailing_run(s.take(p)) < MAX_LINE_BYTES
}

/// Whether `p` is just after the newline that ends line `m - 1` of `s`.
pub open spec fn after_newline(s: Seq<u8>, p: int, m: nat) -> bool {
    &&& 0 < p <= s.len()
    &&& s[p - 1] == NEWLINE
    &&& newline_count(s.take(p)) == m
}

/// Whether `p` is where the first `m` lines of `s` end: just after a newline,
/// or at the end of `s`.
pub open spec fn ends_lines(s: Seq<u8>, p: int, m: nat) -> bool {
    &&& 0 <= p <= s.len()
    &&& count_lines(s.take(p)) == m
    &&& (p == s.len() || (p > 0 && s[p - 1] == NEWLINE))
}

proof fn lemma_fit_prefix(s: Seq<u8>, b: u8)
    requires
        lines_fit(s.push(b)),
    ensures
        lines_fit(s),
{
    assert forall|p: int| 0 <= p <= s.len() implies #[trigger] trailing_run(s.take(p))
        < MAX_LINE_BYTES by {
        assert(s.push(b).take(p) =~= s.take(p));
    }
}

proof fn lemma_count_step(t: int, d: int)
    requires
        d > 0,
        t >= 0,
    ensures
        (t + 1) % d == 0 ==> (t + 1) / d == t / d + 1 && t + 1 == (t / d + 1) * d,
        (t + 1) % d != 0 ==> (t + 1) / d == t / d,
{
    let q = t / d;
    let r = t % d;
    vstd::arithmetic::div_mod::lemma_fundamental_div_mod(t, d);
    assert(t == q * d + r) by (nonlinear_arith)
        requires
            t == d * q + r,
    ;
    if r + 1 == d {
        assert(t + 1 == (q + 1) * d + 0) by (nonlinear_arith)
            requires
                t == q * d + r,
                r + 1 == d,
        ;
        vstd::arithmetic::div_mod::lemma_fundamental_div_mod_converse(t + 1, d, q + 1, 0);
    } else {
        vstd::arithmetic::div_mod::lemma_fundamental_div_mod_converse(t + 1, d, q, r + 1);
    }
}

/// The abstract state of a scan: lines counted, the byte position reached by
/// the accounting, the bytes of the current line not yet accounted for, and the
/// checkpoints recorded so far.
pub struct ScanModel {
    pub total: nat,
    pub pos: nat,
    pub pending: nat,
    pub index: Seq<nat>,
}

pub open spec fn capped(n: nat) -> nat {
    if n > MAX_LINE_BYTES { MAX_LINE_BYTES as nat } else { n }
}

/// Ends the current line: its length counts up to the ceiling, and every
/// `interval`-th line records the position after it.
pub open spec fn end_line(m: ScanModel, len: nat, interval: nat) -> ScanModel {
    let total = m.total + 1;
    let pos = m.pos + len;
    ScanModel {
        total,
        pos,
        pending: 0,
        index: if total % interval == 0 { m.index.push(pos) } else { m.index },
    }
}

/// One byte of a chunk.
pub open spec fn scan_byte(m: ScanModel, b: u8, interval: nat) -> ScanModel {
    if b == NEWLINE {
        end_line(m, capped(m.pending + 1), interval)
    } else {
        ScanModel { pending: m.pending + 1, ..m }
    }
}

/// The bytes of a chunk, in order.
pub open spec fn scan_bytes(m: ScanModel, bytes: Seq<u8>, interval: nat) -> ScanModel
    decreases bytes.len(),
{
    if bytes.len() == 0 {
        m
    } else {
        scan_byte(scan_bytes(m, bytes.drop_last(), interval), bytes.last(), interval)
    }
}

/// At the end of a chunk the bytes of an unfinished line beyond the ceiling are
/// accounted for at once and no longer kept.
pub open spec fn close_chunk(m: ScanModel) -> ScanModel {
    if m.pending > MAX_LINE_BYTES {
        ScanModel {
            pos: m.pos + (m.pending - MAX_LINE_BYTES) as nat,
            pending: MAX_LINE_BYTES as nat,
            ..m
        }
    } else {
        m
    }
}

/// A whole chunk.
pub open spec fn scan_chunk(m: ScanModel, chunk: Seq<u8>, interval: nat) -> ScanModel {
    close_chunk(scan_bytes(m, chunk, interval))
}

/// End of input: an unfinished line counts as one more line.
pub open spec fn scan_end(m: ScanModel, interval: nat) -> ScanModel {
    if m.pending > 0 {
        end_line(m, m.pending, interval)
    } else {
        m
    }
}

pub open spec fn initial_model() -> ScanModel {
    ScanModel { total: 0, pos: 0, pending: 0, index: Seq::empty() }
}

/// The result of scanning a file: its line count and a sparse index whose entry
/// `k` is the accounted position after line `(k + 1) * interval`.
pub struct LineIndex {
    pub total_lines: usize,
    pub index: Vec<u64>,
    pub interval: usize,
}

/// Scans a file once, chunk by chunk, keeping only counters: memory does not
/// grow with the length of a line.
pub struct LineIndexer {
    total: usize,
    pos: u64,
    pending: usize,
    index: Vec<u64>,
    interval: usize,
    fed: Ghost<Seq<u8>>,
}

pub open spec fn index_view(v: Seq<u64>) -> Seq<nat> {
    v.map_values(|x: u64| x as nat)
}

impl LineIndexer {
    /// The abstract state reached so far.
    pub closed spec fn model(&self) -> ScanModel {
        ScanModel {
            total: self.total as nat,
            pos: self.pos as nat,
            pending: self.pending as nat,
            index: index_view(self.index@),
        }
    }

    /// Every byte handed over so far, in order.
    pub closed spec fn fed(&self) -> Seq<u8> {
        self.fed@
    }

    pub closed spec fn interval(&self) -> nat {
        self.interval as nat
    }

    pub closed spec fn wf(&self) -> bool {
        &&& self.interval > 0
        &&& self.total as nat == newline_count(self.fed@)
        &&& (self.pending > 0) == ends_mid_line(self.fed@)
        &&& self.pending <= MAX_LINE_BYTES
        &&& self.pos + self.pending <= self.fed@.len()
        &&& self.index@.len() == self.total / self.interval
        &&& self.fed@.len() <= usize::MAX
        &&& lines_fit(self.fed@) ==> self.exact()
    }

    /// Without overlong lines the accounting is exact: the position is where
    /// the current line begins, and each checkpoint is just after the newline
    /// that ends its line.
    pub closed spec fn exact(&self) -> bool {
        &&& self.pending == trailing_run(self.fed@)
        &&& self.pos + self.pending == self.fed@.len()
        &&& forall|k: int|
            0 <= k < self.index@.len() ==> after_newline(
                self.fed@,
                #[trigger] self.index@[k] as int,
                ((k + 1) * self.interval) as nat,
            )
    }

    pub fn new(interval: usize) -> (r: Self)
        requires
            interval > 0,
        ensures
            r.wf(),
            r.model() == initial_model(),
            r.fed() == Seq::<u8>::empty(),
            r.interval() == interval,
    {
        let r = LineIndexer {
            total: 0,
            pos: 0,
            pending: 0,
            index: Vec::new(),
            interval,
            fed: Ghost(Seq::empty()),
        };
        assert(index_view(r.index@) =~= Seq::<nat>::empty());
        r
    }

    /// Accounts for the next chunk of the file.
    pub fn feed(&mut self, chunk: &[u8])
        requires
            old(self).wf(),
            old(self).fed().len() + chunk@.len() <= usize::MAX,
        ensures
            final(self).wf(),
            final(self).fed() == old(self).fed() + chunk@,
            final(self).interval() == old(self).interval(),
            final(self).model() == scan_chunk(old(self).model(), chunk@, old(self).interval()),
    {
        let ghost m0 = self.model();
        let ghost f0 = self.fed@;
        let ghost iv = self.interval as nat;
        let mut i: usize = 0;
        while i < chunk.len()
            invariant
                0 <= i <= chunk@.len(),
                self.interval == iv,
                iv > 0,
                self.fed@ == f0 + chunk@.take(i as int),
                f0.len() + chunk@.len() <= usize::MAX,
                self.model() == scan_bytes(m0, chunk@.take(i as int), iv),
                self.total as nat == newline_count(self.fed@),
                (self.pending > 0) == ends_mid_line(self.fed@),
                self.pos + self.pending <= self.fed@.len(),
                self.index@.len() == self.total / self.interval,
                lines_fit(self.fed@) ==> self.exact(),
            decreases chunk@.len() - i,
        {
            let b = chunk[i];
            let ghost before = self.fed@;
            let ghost old_index = self.index@;
            let ghost old_total = self.total;
            let ghost old_pos = self.pos;
            let ghost old_pending = self.pending;
            assert(before.take(before.len() as int) =~= before);
            proof {
                assert(chunk@.take(i + 1).drop_last() =~= chunk@.take(i as int));
                assert(f0 + chunk@.take(i + 1) =~= before.push(b));
                assert(before.push(b).drop_last() =~= before);
            }
            self.fed = Ghost(before.push(b));
            proof {
                lemma_newline_count_bound(self.fed@);
                lemma_count_step(old_total as int, iv as int);
                if lines_fit(self.fed@) {
                    lemma_fit_prefix(before, b);
                }
            }
            if b == NEWLINE {
                let len = if self.pending + 1 > MAX_LINE_BYTES {
                    MAX_LINE_BYTES
                } else {
                    self.pending + 1
                };
                self.pos = self.pos + len as u64;
                self.total = self.total + 1;
                self.pending = 0;
                if self.total % self.interval == 0 {
                    self.index.push(self.pos);
                    proof {
                        assert(index_view(self.index@) =~= index_view(old_index).push(
                            self.pos as nat,
                        ));
                    }
                }
            } else {
                self.pending = self.pending + 1;
            }
            proof {
                let fed = self.fed@;
                if lines_fit(fed) {
                    assert(fed.take(fed.len() as int) =~= fed);
                    assert(trailing_run(before) < MAX_LINE_BYTES);
                    assert forall|k: int| 0 <= k < self.index@.len() implies after_newline(
                        fed,
                        #[trigger] self.index@[k] as int,
                        ((k + 1) * self.interval) as nat,
                    ) by {
                        if k < old_index.len() {
                            assert(self.index@[k] == old_index[k]);
                            assert(after_newline(
                                before,
                                old_index[k] as int,
                                ((k + 1) * self.interval) as nat,
                            ));
                            assert(fed.take(old_index[k] as int) =~= before.take(
                                old_index[k] as int,
                            ));
                        }
                    }
                }
            }
            i = i + 1;
        }
        proof {
            assert(chunk@.take(chunk@.len() as int) =~= chunk@);
        }
        if self.pending > MAX_LINE_BYTES {
            proof {
                if lines_fit(self.fed@) {
                    assert(self.fed@.take(self.fed@.len() as int) =~= self.fed@);
                }
            }
            self.pos = self.pos + (self.pending - MAX_LINE_BYTES) as u64;
            self.pending = MAX_LINE_BYTES;
        }
    }

    /// Ends the scan.
    pub fn finish(self) -> (r: LineIndex)
        requires
            self.wf(),
        ensures
            r.total_lines == count_lines(self.fed()),
            r.total_lines == scan_end(self.model(), self.interval()).total,
            index_view(r.index@) == scan_end(self.model(), self.interval()).index,
            r.interval == self.interval(),
            r.index@.len() == r.total_lines / r.interval,
            lines_fit(self.fed()) ==> forall|k: int|
                0 <= k < r.index@.len() ==> ends_lines(
                    self.fed(),
                    #[trigger] r.index@[k] as int,
                    ((k + 1) * r.interval) as nat,
                ),
    {
        let ghost fed = self.fed@;
        proof {
            lemma_count_step(self.total as int, self.interval as int);
            assert(fed.take(fed.len() as int) =~= fed);
            if lines_fit(fed) {
                assert forall|k: int| 0 <= k < self.index@.len() implies ends_lines(
                    fed,
                    #[trigger] self.index@[k] as int,
                    ((k + 1) * self.interval) as nat,
                ) by {
                    assert(after_newline(fed, self.index@[k] as int, ((k + 1) * self.interval) as nat));
                }
            }
        }
        let mut total = self.total;
        let mut index = self.index;
        if self.pending > 0 {
            proof {
                lemma_newline_count_bound(self.fed@.drop_last());
            }
            total = total + 1;
            let pos = self.pos + self.pending as u64;
            if total % self.interval == 0 {
                let ghost old_index = index@;
                index.push(pos);
                proof {
                    assert(index_view(index@) =~= index_view(old_index).push(pos as nat));
                }
            }
        }
        LineIndex { total_lines: total, index, interval: self.interval }
    }
}

} // verus!
