//! Splitting a log file into its ASCII header lines and the binary payload.
//!
//! The file is read line by line (a line runs up to and including a line
//! feed, or to the end of the input). A line belongs to the header as long
//! as every one of its bytes is seven-bit ASCII; the first line that is not
//! starts the binary payload and belongs to it in full. Header lines are
//! stored trimmed of surrounding whitespace.

use vstd::prelude::*;
use crate::text::trim_spec;

verus! {

/// One past the end of the line starting at `p`: just after the first line
/// feed at or after `p`, or the end of the buffer.
pub open spec fn line_end(data: Seq<u8>, p: int) -> int
    decreases data.len() - p,
{
    if !(0 <= p < data.len()) {
        data.len() as int
    } else if data[p] == 10 {
        p + 1
    } else {
        line_end(data, p + 1)
    }
}

pub proof fn lemma_line_end_bounds(data: Seq<u8>, p: int)
    requires
        0 <= p <= data.len(),
    ensures
        p <= line_end(data, p) <= data.len(),
        p < data.len() ==> p < line_end(data, p),
    decreases data.len() - p,
{
    if p < data.len() && data[p] != 10 {
        lemma_line_end_bounds(data, p + 1);
    }
}

/// Whether the line starting at `p` is all seven-bit ASCII.
pub open spec fn ascii_line(data: Seq<u8>, p: int) -> bool {
    forall|k: int| p <= k < line_end(data, p) ==> data[k] < 128
}

/// Offset where the binary payload begins: the start of the first line that
/// is not all ASCII, or the end of the buffer if every line is.
pub open spec fn payload_start(data: Seq<u8>, p: int) -> int
    decreases data.len() - p,
{
    if !(0 <= p < data.len()) {
        data.len() as int
    } else if ascii_line(data, p) {
        proof {
            lemma_line_end_bounds(data, p);
        }
        payload_start(data, line_end(data, p))
    } else {
        p
    }
}

/// The trimmed header lines from `p` up to the start of the payload.
pub open spec fn header_lines(data: Seq<u8>, p: int) -> Seq<Seq<u8>>
    decreases data.len() - p,
{
    if !(0 <= p < data.len()) {
        Seq::empty()
    } else if ascii_line(data, p) {
        proof {
            lemma_line_end_bounds(data, p);
        }
        seq![trim_spec(data.subrange(p, line_end(data, p)))] + header_lines(
            data,
            line_end(data, p),
        )
    } else {
        Seq::empty()
    }
}

pub proof fn lemma_payload_start_props(data: Seq<u8>, p: int)
    requires
        0 <= p <= data.len(),
    ensures
        p <= payload_start(data, p) <= data.len(),
        payload_start(data, p) < data.len() ==> !ascii_line(data, payload_start(data, p)),
    decreases data.len() - p,
{
    if p < data.len() && ascii_line(data, p) {
        lemma_line_end_bounds(data, p);
        lemma_payload_start_props(data, line_end(data, p));
    }
}

/// Dropping a prefix of the buffer shifts every line end by that prefix's
/// length.
proof fn lemma_line_end_skip(data: Seq<u8>, q: int, p: int)
    requires
        0 <= q <= p <= data.len(),
    ensures
        line_end(data.skip(q), p - q) == line_end(data, p) - q,
    decreases data.len() - p,
{
    let t = data.skip(q);
    if p < data.len() {
        assert(t[p - q] == data[p]);
        if data[p] != 10 {
            lemma_line_end_skip(data, q, p + 1);
        }
    }
}

/// Scanning is idempotent: the payload either is empty or begins with the
/// very line that stopped the scan, which is not all ASCII. Re-scanning
/// the payload therefore finds no header line and leaves it whole.
pub proof fn lemma_scan_idempotent(data: Seq<u8>)
    ensures
        header_lines(data.skip(payload_start(data, 0)), 0) =~= Seq::<Seq<u8>>::empty(),
        payload_start(data.skip(payload_start(data, 0)), 0) == 0,
    decreases data.len(),
{
    lemma_payload_start_props(data, 0);
    let p0 = payload_start(data, 0);
    let pay = data.skip(p0);
    if p0 == data.len() {
        assert(pay.len() == 0);
    } else {
        lemma_line_end_skip(data, p0, p0);
        lemma_line_end_bounds(data, p0);
        lemma_line_end_bounds(pay, 0);
        assert(forall|k: int|
            0 <= k < line_end(pay, 0) ==> pay[k] == data[k + p0] && k + p0 < line_end(data, p0));
        assert(!ascii_line(data, p0));
        let bad = choose|k: int| p0 <= k < line_end(data, p0) && !(data[k] < 128);
        assert(pay[bad - p0] == data[bad] && 0 <= bad - p0 < line_end(pay, 0));
        assert(!ascii_line(pay, 0));
    }
}

/// Position just after the first line feed at or after `p`, or the end of
/// the buffer.
fn find_line_end(data: &[u8], p: usize) -> (e: usize)
    requires
        p <= data@.len(),
    ensures
        e as int == line_end(data@, p as int),
        p <= e <= data@.len(),
{
    proof {
        lemma_line_end_bounds(data@, p as int);
    }
    let mut e = p;
    while e < data.len()
        invariant
            p <= e <= data@.len(),
            line_end(data@, p as int) == line_end(data@, e as int),
        decreases data@.len() - e,
    {
        if data[e] == 10 {
            return e + 1;
        }
        e = e + 1;
    }
    e
}

/// Whether every byte of `data[p..e]` is seven-bit ASCII.
fn all_ascii_range(data: &[u8], p: usize, e: usize) -> (ok: bool)
    requires
        p <= e <= data@.len(),
    ensures
        ok == forall|k: int| p <= k < e ==> data@[k] < 128,
{
    let mut k = p;
    while k < e
        invariant
            p <= k <= e <= data@.len(),
            forall|m: int| p <= m < k ==> data@[m] < 128,
        decreases e - k,
    {
        if data[k] >= 128 {
            return false;
        }
        k = k + 1;
    }
    true
}

/// Splits a raw log file into its trimmed ASCII header lines and the binary
/// payload that follows them.
pub fn scan_header(data: &[u8]) -> (r: (Vec<Vec<u8>>, Vec<u8>))
    ensures
        r.0.deep_view() == header_lines(data@, 0),
        r.1@ == data@.skip(payload_start(data@, 0)),
{
    let mut lines: Vec<Vec<u8>> = Vec::new();
    let mut p: usize = 0;
    proof {
        assert(lines.deep_view() + header_lines(data@, 0) =~= header_lines(data@, 0));
    }
    loop
        invariant_except_break
            p <= data@.len(),
            header_lines(data@, 0) == lines.deep_view() + header_lines(data@, p as int),
            payload_start(data@, 0) == payload_start(data@, p as int),
        ensures
            lines.deep_view() == header_lines(data@, 0),
            p as int == payload_start(data@, 0),
            p <= data@.len(),
        decreases data@.len() - p,
    {
        if p >= data.len() {
            proof {
                assert(lines.deep_view() =~= header_lines(data@, 0));
            }
            break;
        }
        let e = find_line_end(data, p);
        if !all_ascii_range(data, p, e) {
            proof {
                assert(!ascii_line(data@, p as int));
                assert(lines.deep_view() =~= header_lines(data@, 0));
            }
            break;
        }
        let ghost lines0 = lines.deep_view();
        let line = crate::text::trim_bytes(vstd::slice::slice_subrange(data, p, e));
        lines.push(line);
        proof {
            assert(ascii_line(data@, p as int));
            assert(line.deep_view() =~= line@);
            assert(lines.deep_view() =~= lines0.push(line@));
            assert(header_lines(data@, p as int) == seq![line@] + header_lines(
                data@,
                e as int,
            ));
            assert(header_lines(data@, 0) =~= lines.deep_view() + header_lines(data@, e as int));
        }
        p = e;
    }
    let payload = vstd::slice::slice_to_vec(vstd::slice::slice_subrange(data, p, data.len()));
    proof {
        assert(data@.subrange(p as int, data@.len() as int) =~= data@.skip(p as int));
    }
    (lines, payload)
}

} // verus!
