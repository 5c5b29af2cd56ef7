use vstd::prelude::*;
use vstd::utf8::{decode_utf8, encode_utf8, encode_scalar, valid_utf8};
use vstd::string::StringSliceAdditionalSpecFns;
use crate::indexer::{newline_count, NEWLINE};
use crate::reader::{find_newline, next_newline};

verus! {

/// Most match records kept.
pub const MAX_MATCH_RECORDS: usize = 1000;

/// Most sample lines kept.
pub const MAX_SAMPLES: usize = 5;

/// One match: its 0-based line, and its column and length in characters.
#[derive(Clone, Copy, Debug, PartialEq, Eq, Structural)]
pub struct MatchPos {
    pub line: usize,
    pub column: usize,
    pub length: usize,
}

/// What a search over a whole file found.
pub struct SearchOutcome {
    pub count: usize,
    pub samples: Vec<String>,
    pub extra_alloc_bytes: usize,
    pub first_match: Option<MatchPos>,
    pub matches: Vec<MatchPos>,
}

/// ASCII lower case of one byte.
pub open spec fn lower_byte(b: u8) -> u8 {
    if 65 <= b <= 90 { (b + 32) as u8 } else { b }
}

pub open spec fn lowered(s: Seq<u8>) -> Seq<u8> {
    s.map_values(|b: u8| lower_byte(b))
}

/// Whether `n` occurs in `h` at `p`.
pub open spec fn occurs_at(h: Seq<u8>, n: Seq<u8>, p: int) -> bool {
    0 <= p && p + n.len() <= h.len() && h.subrange(p, p + n.len()) == n
}

/// Positions of the occurrences of `n` in `h` found from `i` on, left to right,
/// each search resuming after the occurrence just found.
pub open spec fn occurrences_from(h: Seq<u8>, n: Seq<u8>, i: int) -> Seq<int>
    decreases h.len() - i,
{
    if n.len() == 0 || i < 0 || i + n.len() > h.len() {
        Seq::empty()
    } else if occurs_at(h, n, i) {
        seq![i] + occurrences_from(h, n, i + n.len())
    } else {
        occurrences_from(h, n, i + 1)
    }
}

pub open spec fn occurrences(h: Seq<u8>, n: Seq<u8>) -> Seq<int> {
    occurrences_from(h, n, 0)
}

/// Where the line holding position `p` begins.
pub open spec fn line_start(h: Seq<u8>, p: int) -> int
    decreases p,
{
    if p <= 0 {
        0
    } else if h[p - 1] == NEWLINE {
        p
    } else {
        line_start(h, p - 1)
    }
}

/// Number of characters of `b` when it is valid UTF-8, else `fallback`.
pub open spec fn char_len_or(b: Seq<u8>, fallback: int) -> int {
    if valid_utf8(b) { decode_utf8(b).len() as int } else { fallback }
}

/// The record of a match of `n` at `p` in the text `h`.
pub open spec fn match_record(h: Seq<u8>, n: Seq<u8>, p: int) -> MatchPos {
    MatchPos {
        line: newline_count(h.take(p)) as usize,
        column: char_len_or(h.subrange(line_start(h, p), p), 0) as usize,
        length: char_len_or(n, n.len() as int) as usize,
    }
}

/// The line holding position `p`, without its newline.
pub open spec fn line_around(h: Seq<u8>, p: int) -> Seq<u8> {
    h.subrange(line_start(h, p), next_newline(h, p))
}

/// Sample lines for the matches at `ps`: the text of the line of each match
/// whose line is valid UTF-8, the first few only.
pub open spec fn samples_for(h: Seq<u8>, ps: Seq<int>) -> Seq<Seq<char>>
    decreases ps.len(),
{
    if ps.len() == 0 {
        Seq::empty()
    } else {
        let prev = samples_for(h, ps.drop_last());
        let line = line_around(h, ps.last());
        if prev.len() < MAX_SAMPLES && valid_utf8(line) {
            prev.push(decode_utf8(line))
        } else {
            prev
        }
    }
}

pub open spec fn searched_text(h: Seq<u8>, ignore_case: bool) -> Seq<u8> {
    if ignore_case { lowered(h) } else { h }
}

pub open spec fn records_for(h: Seq<u8>, n: Seq<u8>, ps: Seq<int>) -> Seq<MatchPos> {
    ps.map_values(|p: int| match_record(h, n, p))
}

pub open spec fn first_n(ps: Seq<int>, k: nat) -> Seq<int> {
    if ps.len() <= k { ps } else { ps.take(k as int) }
}

/// What a search of `needle` in `hay` reports: every non-overlapping
/// occurrence from left to right is counted, the first and the first thousand
/// are recorded, and the first few matching lines are kept as samples.
pub open spec fn reports_search(r: SearchOutcome, hay: Seq<u8>, needle: Seq<u8>, ignore_case: bool) -> bool {
    let h = searched_text(hay, ignore_case);
    let n = searched_text(needle, ignore_case);
    let occ = occurrences(h, n);
    &&& r.count == occ.len()
    &&& r.matches@ == records_for(hay, n, first_n(occ, MAX_MATCH_RECORDS as nat))
    &&& r.first_match == if occ.len() > 0 {
        Some(match_record(hay, n, occ[0]))
    } else {
        None::<MatchPos>
    }
    &&& r.samples@.map_values(|s: String| s@) == samples_for(hay, occ)
    &&& r.extra_alloc_bytes == if ignore_case && hay.len() > 0 {
        hay.len() as int
    } else {
        0
    }
}

/// Relies on `memchr::memmem::find`: the position of the first occurrence of
/// `needle` in `hay`, or `None` when there is none.
#[verifier::external_body]
fn find_first(hay: &[u8], needle: &[u8]) -> (r: Option<usize>)
    ensures
        r matches Some(p) ==> occurs_at(hay@, needle@, p as int),
        r matches Some(p) ==> forall|q: int| 0 <= q < p ==> !occurs_at(hay@, needle@, q),
        r is None ==> forall|q: int| !occurs_at(hay@, needle@, q),
{
    memchr::memmem::find(hay, needle)
}

/// Relies on `std::str::from_utf8`: the same bytes as text exactly when they
/// are valid UTF-8.
#[verifier::external_body]
fn utf8_text(b: &[u8]) -> (r: Option<&str>)
    ensures
        r is Some <==> valid_utf8(b@),
        r matches Some(s) ==> s.spec_bytes() == b@,
{
    std::str::from_utf8(b).ok()
}

proof fn lemma_encode_len(chars: Seq<char>)
    ensures
        chars.len() <= encode_utf8(chars).len(),
    decreases chars.len(),
{
    if chars.len() > 0 {
        lemma_encode_len(chars.drop_first());
        assert(encode_scalar(chars[0] as u32).len() >= 1);
    }
}

/// Number of characters of `b` when it is valid UTF-8.
fn utf8_char_len(b: &[u8]) -> (r: Option<usize>)
    ensures
        r is Some <==> valid_utf8(b@),
        r matches Some(k) ==> k == decode_utf8(b@).len(),
{
    match utf8_text(b) {
        None => None,
        Some(s) => {
            proof {
                vstd::utf8::encode_utf8_decode_utf8(s@);
                lemma_encode_len(s@);
            }
            let _byte_len = b.len();
            let mut k: usize = 0;
            for _c in it: s.chars()
                invariant
                    k == it.index(),
                    it.seq() == s@,
                    s@.len() <= b@.len(),
                    b@.len() <= usize::MAX,
            {
                k = k + 1;
            }
            Some(k)
        },
    }
}

/// ASCII lower case of every byte.
pub fn lower_ascii(b: &[u8]) -> (r: Vec<u8>)
    ensures
        r@ == lowered(b@),
{
    let mut out: Vec<u8> = Vec::with_capacity(b.len());
    let mut i: usize = 0;
    while i < b.len()
        invariant
            i <= b@.len(),
            out@ == lowered(b@).take(i as int),
        decreases b@.len() - i,
    {
        let c = b[i];
        let l = if 65 <= c && c <= 90 { c + 32 } else { c };
        out.push(l);
        proof {
            assert(lowered(b@).take(i + 1) =~= lowered(b@).take(i as int).push(l));
        }
        i = i + 1;
    }
    proof {
        assert(lowered(b@).take(b@.len() as int) =~= lowered(b@));
    }
    out
}

proof fn lemma_occurrences_bound(h: Seq<u8>, n: Seq<u8>, i: int)
    requires
        0 <= i,
    ensures
        occurrences_from(h, n, i).len() <= if i <= h.len() { h.len() - i } else { 0 },
    decreases h.len() - i,
{
    if n.len() == 0 || i + n.len() > h.len() {
    } else if occurs_at(h, n, i) {
        lemma_occurrences_bound(h, n, i + n.len());
    } else {
        lemma_occurrences_bound(h, n, i + 1);
    }
}

proof fn lemma_occurrences_first(h: Seq<u8>, n: Seq<u8>, i: int, p: int)
    requires
        n.len() > 0,
        0 <= i <= p,
        occurs_at(h, n, p),
        forall|q: int| i <= q < p ==> !occurs_at(h, n, q),
    ensures
        occurrences_from(h, n, i) == seq![p] + occurrences_from(h, n, p + n.len()),
    decreases p - i,
{
    if i < p {
        lemma_occurrences_first(h, n, i + 1, p);
    }
}

proof fn lemma_occurrences_none(h: Seq<u8>, n: Seq<u8>, i: int)
    requires
        0 <= i,
        forall|q: int| i <= q ==> !occurs_at(h, n, q),
    ensures
        occurrences_from(h, n, i) == Seq::<int>::empty(),
    decreases h.len() - i,
{
    if n.len() > 0 && i + n.len() <= h.len() {
        lemma_occurrences_none(h, n, i + 1);
    }
}

proof fn lemma_shift(h: Seq<u8>, n: Seq<u8>, start: int, q: int)
    requires
        0 <= start <= h.len(),
        0 <= q,
    ensures
        occurs_at(h.subrange(start, h.len() as int), n, q) == occurs_at(h, n, start + q),
{
    let sub = h.subrange(start, h.len() as int);
    if q + n.len() <= sub.len() {
        assert(sub.subrange(q, q + n.len()) =~= h.subrange(start + q, start + q + n.len()));
    }
}

proof fn lemma_line_start_bounds(h: Seq<u8>, p: int)
    requires
        0 <= p,
    ensures
        0 <= line_start(h, p) <= p,
    decreases p,
{
    if p > 0 && h[p - 1] != NEWLINE {
        lemma_line_start_bounds(h, p - 1);
    }
}

/// Searches all of `hay` for `needle`, in ASCII lower case on both sides when
/// `ignore_case` is set, and reports every non-overlapping occurrence from left
/// to right: their count, the first match, the records of the first thousand,
/// and the first few matching lines. Lines and columns are those of `hay`.
pub fn search_bytes(hay: &[u8], needle: &[u8], ignore_case: bool) -> (r: SearchOutcome)
    requires
        needle@.len() > 0,
    ensures
        reports_search(r, hay@, needle@, ignore_case),
{
    let ghost h0 = searched_text(hay@, ignore_case);
    let ghost n0 = searched_text(needle@, ignore_case);
    if hay.len() == 0 {
        let r = SearchOutcome {
            count: 0,
            samples: Vec::new(),
            extra_alloc_bytes: 0,
            first_match: None,
            matches: Vec::new(),
        };
        proof {
            assert(occurrences(h0, n0) == Seq::<int>::empty());
            assert(r.samples@.map_values(|s: String| s@) =~= Seq::<Seq<char>>::empty());
            assert(r.matches@ =~= records_for(hay@, n0, Seq::<int>::empty()));
        }
        return r;
    }
    let lowered_hay = if ignore_case { lower_ascii(hay) } else { Vec::new() };
    let lowered_needle = if ignore_case { lower_ascii(needle) } else { Vec::new() };
    let h: &[u8] = if ignore_case { lowered_hay.as_slice() } else { hay };
    let n: &[u8] = if ignore_case { lowered_needle.as_slice() } else { needle };
    let extra_alloc_bytes: usize = if ignore_case { hay.len() } else { 0 };
    assert(h@ == h0 && n@ == n0);
    assert(h@.len() == hay@.len());
    let length = match utf8_char_len(n) {
        Some(k) => k,
        None => n.len(),
    };
    let mut count: usize = 0;
    let mut samples: Vec<String> = Vec::new();
    let mut matches: Vec<MatchPos> = Vec::new();
    let mut first_match: Option<MatchPos> = None;
    let mut start: usize = 0;
    let mut scan: usize = 0;
    let mut line_no: usize = 0;
    let mut ls: usize = 0;
    let ghost mut found: Seq<int> = Seq::empty();
    proof {
        lemma_occurrences_bound(h0, n0, 0);
        assert(hay@.take(0) =~= Seq::<u8>::empty());
        assert(samples@.map_values(|s: String| s@) =~= Seq::<Seq<char>>::empty());
        assert(matches@ =~= records_for(hay@, n0, first_n(found, MAX_MATCH_RECORDS as nat)));
    }
    while start < h.len()
        invariant
            h@ == h0,
            n@ == n0,
            n0.len() > 0,
            h0.len() == hay@.len(),
            length == char_len_or(n0, n0.len() as int),
            scan <= start <= h0.len(),
            occurrences(h0, n0) == found + occurrences_from(h0, n0, start as int),
            occurrences(h0, n0).len() <= h0.len(),
            count == found.len(),
            line_no == newline_count(hay@.take(scan as int)),
            ls == line_start(hay@, scan as int),
            matches@ == records_for(hay@, n0, first_n(found, MAX_MATCH_RECORDS as nat)),
            first_match == if found.len() > 0 {
                Some(match_record(hay@, n0, found[0]))
            } else {
                None::<MatchPos>
            },
            samples@.map_values(|s: String| s@) == samples_for(hay@, found),
        ensures
            occurrences_from(h0, n0, start as int) == Seq::<int>::empty(),
        decreases h0.len() - start,
    {
        let sub = &h[start..h.len()];
        let res = find_first(sub, n);
        proof {
            assert forall|q: int| 0 <= q implies #[trigger] occurs_at(sub@, n0, q) == occurs_at(
                h0,
                n0,
                start + q,
            ) by {
                lemma_shift(h0, n0, start as int, q);
            }
        }
        match res {
            None => {
                proof {
                    assert forall|q: int| start <= q implies !occurs_at(h0, n0, q) by {
                        assert(occurs_at(sub@, n0, q - start) == occurs_at(h0, n0, q));
                    }
                    lemma_occurrences_none(h0, n0, start as int);
                }
                break ;
            },
            Some(p) => {
                let abs = start + p;
                proof {
                    assert(occurs_at(sub@, n0, p as int));
                    assert forall|q: int| start <= q < abs implies !occurs_at(h0, n0, q) by {
                        assert(occurs_at(sub@, n0, q - start) == occurs_at(h0, n0, q));
                    }
                    lemma_occurrences_first(h0, n0, start as int, abs as int);
                    assert((found + seq![abs as int]) + occurrences_from(
                        h0,
                        n0,
                        abs + n0.len(),
                    ) =~= found + (seq![abs as int] + occurrences_from(h0, n0, abs + n0.len())));
                }
                while scan < abs
                    invariant
                        scan <= abs <= hay@.len(),
                        line_no == newline_count(hay@.take(scan as int)),
                        ls == line_start(hay@, scan as int),
                    decreases abs - scan,
                {
                    proof {
                        assert(hay@.take(scan + 1).drop_last() =~= hay@.take(scan as int));
                        crate::indexer::lemma_newline_count_bound(hay@.take(scan as int));
                    }
                    if hay[scan] == NEWLINE {
                        line_no = line_no + 1;
                        ls = scan + 1;
                    }
                    scan = scan + 1;
                }
                proof {
                    lemma_line_start_bounds(hay@, abs as int);
                }
                if count < MAX_MATCH_RECORDS {
                    let column = match utf8_char_len(&hay[ls..abs]) {
                        Some(k) => k,
                        None => 0,
                    };
                    let rec = MatchPos { line: line_no, column, length };
                    assert(rec == match_record(hay@, n0, abs as int));
                    if count == 0 {
                        first_match = Some(rec);
                    }
                    let ghost before = matches@;
                    matches.push(rec);
                    proof {
                        assert(first_n(found.push(abs as int), MAX_MATCH_RECORDS as nat)
                            =~= found.push(abs as int));
                        assert(matches@ =~= records_for(hay@, n0, found.push(abs as int)));
                    }
                } else {
                    proof {
                        assert(first_n(found.push(abs as int), MAX_MATCH_RECORDS as nat)
                            =~= first_n(found, MAX_MATCH_RECORDS as nat));
                    }
                }
                let ghost prev_samples = samples@;
                proof {
                    assert(found.push(abs as int).drop_last() =~= found);
                }
                if samples.len() < MAX_SAMPLES {
                    let le = find_newline(hay, abs);
                    match utf8_text(&hay[ls..le]) {
                        Some(text) => {
                            let owned = text.to_owned();
                            proof {
                                vstd::utf8::encode_utf8_decode_utf8(text@);
                            }
                            samples.push(owned);
                            proof {
                                assert(samples@.map_values(|s: String| s@) =~= prev_samples.map_values(
                                    |s: String| s@,
                                ).push(owned@));
                            }
                        },
                        None => {},
                    }
                }
                proof {
                    found = found.push(abs as int);
                    assert(found + occurrences_from(h0, n0, abs + n0.len()) == occurrences(h0, n0));
                    assert(found.len() <= occurrences(h0, n0).len());
                }
                count = count + 1;
                start = abs + n.len();
            },
        }
    }
    proof {
        assert(found + Seq::<int>::empty() =~= found);
    }
    SearchOutcome { count, samples, extra_alloc_bytes, first_match, matches }
}

proof fn lemma_occurrences_some(h: Seq<u8>, n: Seq<u8>, i: int, q: int)
    requires
        n.len() > 0,
        0 <= i <= q,
        occurs_at(h, n, q),
    ensures
        occurrences_from(h, n, i).len() > 0,
    decreases q - i,
{
    if !occurs_at(h, n, i) {
        lemma_occurrences_some(h, n, i + 1, q);
    }
}

proof fn lemma_occurrences_ordered(h: Seq<u8>, n: Seq<u8>, i: int)
    requires
        0 <= i,
    ensures
        forall|k: int|
            0 <= k < occurrences_from(h, n, i).len() ==> occurs_at(
                h,
                n,
                #[trigger] occurrences_from(h, n, i)[k],
            ) && i <= occurrences_from(h, n, i)[k],
        forall|k: int, l: int|
            0 <= k < l < occurrences_from(h, n, i).len() ==> #[trigger] occurrences_from(h, n, i)[k]
                + n.len() <= #[trigger] occurrences_from(h, n, i)[l],
    decreases h.len() - i,
{
    if n.len() == 0 || i + n.len() > h.len() {
    } else if occurs_at(h, n, i) {
        lemma_occurrences_ordered(h, n, i + n.len());
        let rest = occurrences_from(h, n, i + n.len());
        let all = occurrences_from(h, n, i);
        assert(all == seq![i] + rest);
        assert forall|k: int| 0 <= k < all.len() implies occurs_at(h, n, #[trigger] all[k]) && i
            <= all[k] by {
            if k > 0 {
                assert(all[k] == rest[k - 1]);
            }
        }
        assert forall|k: int, l: int| 0 <= k < l < all.len() implies #[trigger] all[k] + n.len()
            <= #[trigger] all[l] by {
            assert(all[l] == rest[l - 1]);
            assert(occurs_at(h, n, rest[l - 1]));
            if k > 0 {
                assert(all[k] == rest[k - 1]);
                assert(rest[k - 1] + n.len() <= rest[l - 1]);
            }
        }
    } else {
        lemma_occurrences_ordered(h, n, i + 1);
        assert(occurrences_from(h, n, i) == occurrences_from(h, n, i + 1));
    }
}

/// A search reports no match exactly when the needle occurs nowhere; else it
/// counts every occurrence, in file order and without overlap, and records the
/// first thousand, each on the line that a scan for newlines gives.
pub proof fn lemma_search_counts(r: SearchOutcome, hay: Seq<u8>, needle: Seq<u8>, ignore_case: bool)
    requires
        needle.len() > 0,
        reports_search(r, hay, needle, ignore_case),
    ensures
        ({
            let h = searched_text(hay, ignore_case);
            let n = searched_text(needle, ignore_case);
            let occ = occurrences(h, n);
            &&& (r.count == 0) == (forall|q: int| !occurs_at(h, n, q))
            &&& (r.first_match is None) == (r.count == 0)
            &&& r.matches@.len() == if r.count <= MAX_MATCH_RECORDS {
                r.count as int
            } else {
                MAX_MATCH_RECORDS as int
            }
            &&& forall|k: int| 0 <= k < occ.len() ==> occurs_at(h, n, #[trigger] occ[k])
            &&& forall|k: int, l: int|
                0 <= k < l < occ.len() ==> #[trigger] occ[k] + n.len() <= #[trigger] occ[l]
            &&& forall|k: int|
                0 <= k < r.matches@.len() ==> (#[trigger] r.matches@[k]).line == newline_count(
                    hay.take(occ[k]),
                ) as usize
        }),
{
    let h = searched_text(hay, ignore_case);
    let n = searched_text(needle, ignore_case);
    assert(n.len() == needle.len());
    lemma_occurrences_ordered(h, n, 0);
    if forall|q: int| !occurs_at(h, n, q) {
        lemma_occurrences_none(h, n, 0);
    } else {
        let q = choose|q: int| occurs_at(h, n, q);
        lemma_occurrences_some(h, n, 0, q);
    }
}

} // verus!
