use vstd::prelude::*;

verus! {

/// Size of a page: windows start at a multiple of it.
pub const PAGE_SIZE: u64 = 4096;

/// Bytes assumed per line when sizing a window.
pub const ESTIMATED_LINE_BYTES: usize = 120;

/// Largest window that is mapped at once.
pub const WINDOW_CAP: usize = 8388608;

pub open spec fn min_int(a: int, b: int) -> int {
    if a <= b { a } else { b }
}

/// The page-aligned start of a window that holds `offset`.
pub open spec fn aligned_start(offset: u64) -> int {
    offset as int - (offset as int) % (PAGE_SIZE as int)
}

/// How many bytes a window wants: from its aligned start past `offset`, room
/// for the lines asked for and one index interval more, at most the cap.
pub open spec fn wanted_len(offset: u64, count: usize, interval: usize) -> int {
    min_int(
        (offset as int) % (PAGE_SIZE as int) + (count + interval) * ESTIMATED_LINE_BYTES,
        WINDOW_CAP as int,
    )
}

/// The window to map for reading `count` lines from `offset`: its page-aligned
/// start and its length before any clipping to the file.
pub fn window_request(offset: u64, count: usize, interval: usize) -> (r: (u64, usize))
    ensures
        r.0 == aligned_start(offset),
        r.1 == wanted_len(offset, count, interval),
        r.0 <= offset,
{
    let aligned = offset - offset % PAGE_SIZE;
    let delta = (offset - aligned) as usize;
    let lines = count.saturating_add(interval);
    let bytes = if lines > usize::MAX / ESTIMATED_LINE_BYTES {
        usize::MAX
    } else {
        lines * ESTIMATED_LINE_BYTES
    };
    let mut len = delta.saturating_add(bytes);
    if len > WINDOW_CAP {
        len = WINDOW_CAP;
    }
    proof {
        let want = (count + interval) * ESTIMATED_LINE_BYTES;
        assert(lines as int * ESTIMATED_LINE_BYTES <= want) by (nonlinear_arith)
            requires
                lines <= count + interval,
                want == (count + interval) * 120,
        ;
        if lines > usize::MAX / ESTIMATED_LINE_BYTES {
            assert(want >= usize::MAX) by (nonlinear_arith)
                requires
                    lines > usize::MAX / 120,
                    lines <= count + interval,
                    want == (count + interval) * 120,
            ;
        }
        assert(usize::MAX >= WINDOW_CAP);
    }
    (aligned, len)
}

/// How much of a window of `len` bytes at `start` lies inside a file of
/// `file_len` bytes: nothing when it starts at or past the end.
pub open spec fn clipped_len(start: u64, len: usize, file_len: u64) -> int {
    if start >= file_len { 0 } else { min_int(len as int, file_len - start) }
}

pub fn clip_window(start: u64, len: usize, file_len: u64) -> (r: usize)
    ensures
        r == clipped_len(start, len, file_len),
{
    if start >= file_len {
        0
    } else if (len as u64) > file_len - start {
        (file_len - start) as usize
    } else {
        len
    }
}

/// Whether a window of `len` bytes at `start` holds `need` bytes from `offset`.
pub open spec fn covers(start: u64, len: usize, offset: u64, need: usize) -> bool {
    start <= offset && offset + need <= start + len
}

pub fn window_covers(start: u64, len: usize, offset: u64, need: usize) -> (r: bool)
    ensures
        r == covers(start, len, offset, need),
{
    offset >= start && (offset as u128) + (need as u128) <= (start as u128) + (len as u128)
}

} // verus!
