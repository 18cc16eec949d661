//! Header tokenization for the reader: the dimensions are the first two
//! readable non-negative integers found across the header lines (lines are
//! split on single spaces; tokens that fail to parse are skipped, which is
//! how comment-like lines pass by), and the max-value line is one line read
//! verbatim as an integer.
use vstd::prelude::*;
use crate::numeral::{token_parses, token_to_nat, parse_token, dec_bytes, is_digit,
    lemma_dec_bytes};

verus! {

/// The largest value a dimension token may carry.
pub open spec fn dims_bound() -> nat {
    usize::MAX as nat
}

/// Appends the token `s[from..to]` to the dimensions found so far, if fewer
/// than two have been found and the token reads as an integer.
pub open spec fn push_tok(s: Seq<u8>, from: int, to: int, vals: Seq<nat>) -> Seq<nat> {
    if vals.len() < 2 && token_parses(s.subrange(from, to), dims_bound()) {
        vals.push(token_to_nat(s.subrange(from, to)))
    } else {
        vals
    }
}

/// The dimension scanner, one byte at a time: `tstart` is where the current
/// token began, `vals` the integers found so far.  A space ends a token; a
/// newline ends a token and then a line, and only at a line's end (or at the
/// end of the stream) can the scan conclude.  The result carries the two
/// dimensions and the position just past the line where the second one was
/// found.
pub open spec fn scan_dims_at(s: Seq<u8>, tstart: int, i: int, vals: Seq<nat>) -> Option<
    (nat, nat, int),
>
    decreases s.len() - i,
{
    if i >= s.len() {
        let vals2 = push_tok(s, tstart, s.len() as int, vals);
        if vals2.len() >= 2 {
            Some((vals2[0], vals2[1], s.len() as int))
        } else {
            None
        }
    } else if s[i] == 10 {
        let vals2 = push_tok(s, tstart, i, vals);
        if vals2.len() >= 2 {
            Some((vals2[0], vals2[1], i + 1))
        } else {
            scan_dims_at(s, i + 1, i + 1, vals2)
        }
    } else if s[i] == 32 {
        scan_dims_at(s, i + 1, i + 1, push_tok(s, tstart, i, vals))
    } else {
        scan_dims_at(s, tstart, i + 1, vals)
    }
}

/// Where the header's dimension scan, started at `p`, finds width, height
/// and the position of the payload.
pub open spec fn scan_dims(s: Seq<u8>, p: int) -> Option<(nat, nat, int)> {
    scan_dims_at(s, p, p, Seq::empty())
}

/// The index of the first newline at or after `i`, or the end of the
/// stream: the current header line is `s[i .. line_end(s, i)]`.
pub open spec fn line_end(s: Seq<u8>, i: int) -> int
    decreases s.len() - i,
{
    if i >= s.len() {
        s.len() as int
    } else if s[i] == 10 {
        i
    } else {
        line_end(s, i + 1)
    }
}

/// The max-value header line, read at position `p`: the whole line must be
/// one readable integer that fits the 16-bit sample range.  The result
/// carries the value and the position just past the line.
pub open spec fn maxval_at(s: Seq<u8>, p: int) -> Option<(u16, int)> {
    let e = line_end(s, p);
    let nxt = if e < s.len() {
        e + 1
    } else {
        e
    };
    if token_parses(s.subrange(p, e), 65535) {
        Some((token_to_nat(s.subrange(p, e)) as u16, nxt))
    } else {
        None
    }
}

proof fn lemma_scan_dims_at_bounds(s: Seq<u8>, tstart: int, i: int, vals: Seq<nat>)
    requires
        0 <= i <= s.len(),
        forall|k: int| 0 <= k < vals.len() ==> #[trigger] vals[k] <= dims_bound(),
    ensures
        match scan_dims_at(s, tstart, i, vals) {
            Some((w, h, p)) => w <= dims_bound() && h <= dims_bound() && i <= p <= s.len(),
            None => true,
        },
    decreases s.len() - i,
{
    if i >= s.len() {
    } else if s[i] == 10 {
        let vals2 = push_tok(s, tstart, i, vals);
        if vals2.len() < 2 {
            lemma_scan_dims_at_bounds(s, i + 1, i + 1, vals2);
        }
    } else if s[i] == 32 {
        lemma_scan_dims_at_bounds(s, i + 1, i + 1, push_tok(s, tstart, i, vals));
    } else {
        lemma_scan_dims_at_bounds(s, tstart, i + 1, vals);
    }
}

/// Finds the dimensions in the header, scanning from `start`: the first two
/// readable integers across lines, and the position just past the line
/// where the second was found.
pub fn find_dims(bytes: &Vec<u8>, start: usize) -> (r: Option<(usize, usize, usize)>)
    requires
        start <= bytes@.len(),
    ensures
        match scan_dims(bytes@, start as int) {
            Some((w, h, p)) => r matches Some(t) && t.0 == w && t.1 == h && t.2 == p && p <= bytes@.len(),
            None => r is None,
        },
{
    let ghost s = bytes@;
    let n = bytes.len();
    let mut i: usize = start;
    let mut tstart: usize = start;
    let mut v0: usize = 0;
    let mut v1: usize = 0;
    let mut cnt: usize = 0;
    let ghost mut vals = Seq::<nat>::empty();
    proof {
        lemma_scan_dims_at_bounds(s, start as int, start as int, vals);
    }
    loop
        invariant
            s == bytes@,
            n == s.len(),
            start <= tstart,
            tstart <= i <= n,
            scan_dims(s, start as int) == scan_dims_at(s, tstart as int, i as int, vals),
            cnt == vals.len(),
            cnt <= 2,
            cnt >= 1 ==> v0 as nat == vals[0],
            cnt >= 2 ==> v1 as nat == vals[1],
            forall|k: int| 0 <= k < vals.len() ==> #[trigger] vals[k] <= dims_bound(),
        decreases n - i,
    {
        if i == n || bytes[i] == 10 || bytes[i] == 32 {
            let tokr = parse_token(bytes, tstart, i, usize::MAX as u64);
            let ghost vals2 = push_tok(s, tstart as int, i as int, vals);
            if cnt < 2 {
                if let Some(v) = tokr {
                    if cnt == 0 {
                        v0 = v as usize;
                    } else {
                        v1 = v as usize;
                    }
                    cnt = cnt + 1;
                }
            }
            proof {
                vals = vals2;
            }
            if i == n {
                if cnt >= 2 {
                    return Some((v0, v1, n));
                } else {
                    return None;
                }
            }
            if bytes[i] == 10 && cnt >= 2 {
                return Some((v0, v1, i + 1));
            }
            tstart = i + 1;
            i = i + 1;
        } else {
            i = i + 1;
        }
    }
}

/// Reads the max-value line at `p`: the bytes up to the next newline,
/// parsed verbatim, and the position just past that line.
pub fn read_maxval(bytes: &Vec<u8>, p: usize) -> (r: Option<(u16, usize)>)
    requires
        p <= bytes@.len(),
    ensures
        match maxval_at(bytes@, p as int) {
            Some((m, q)) => r matches Some(t) && t.0 == m && t.1 == q && p <= q <= bytes@.len(),
            None => r is None,
        },
{
    let ghost s = bytes@;
    let n = bytes.len();
    let mut e: usize = p;
    while e < n && bytes[e] != 10
        invariant
            s == bytes@,
            n == s.len(),
            p <= e <= n,
            line_end(s, p as int) == line_end(s, e as int),
        decreases n - e,
    {
        e = e + 1;
    }
    assert(line_end(s, p as int) == e as int);
    let nxt = if e < n {
        e + 1
    } else {
        e
    };
    match parse_token(bytes, p, e, 65535) {
        Some(v) => Some((v as u16, nxt)),
        None => None,
    }
}

/// A maximal run of bytes that are neither newline nor space moves the
/// scanner across without ending a token.
pub proof fn lemma_scan_run(s: Seq<u8>, tstart: int, i: int, e: int, vals: Seq<nat>)
    requires
        0 <= i <= e <= s.len(),
        forall|k: int| i <= k < e ==> #[trigger] s[k] != 10 && s[k] != 32,
    ensures
        scan_dims_at(s, tstart, i, vals) == scan_dims_at(s, tstart, e, vals),
    decreases e - i,
{
    if i < e {
        lemma_scan_run(s, tstart, i + 1, e, vals);
    }
}

/// A header laid out as the writer lays it out — a two-byte magic, a
/// newline, then `<width> <height>` on one line — scans to exactly those
/// dimensions, and the scan stops just past that line.
pub proof fn lemma_scan_encoded_dims(s: Seq<u8>, w: nat, h: nat)
    requires
        w <= dims_bound(),
        h <= dims_bound(),
        s.len() > 4 + dec_bytes(w).len() + dec_bytes(h).len(),
        s[2] == 10,
        s.subrange(3, 3 + dec_bytes(w).len() as int) == dec_bytes(w),
        s[3 + dec_bytes(w).len() as int] == 32,
        s.subrange(
            4 + dec_bytes(w).len() as int,
            4 + dec_bytes(w).len() + dec_bytes(h).len() as int,
        ) == dec_bytes(h),
        s[4 + dec_bytes(w).len() + dec_bytes(h).len() as int] == 10,
    ensures
        scan_dims(s, 2) == Some((w, h, 5 + dec_bytes(w).len() + dec_bytes(h).len() as int)),
{
    lemma_dec_bytes(w);
    lemma_dec_bytes(h);
    let dw = dec_bytes(w).len() as int;
    let dh = dec_bytes(h).len() as int;
    let e0 = Seq::<nat>::empty();
    assert(s.subrange(2, 2) =~= Seq::<u8>::empty());
    assert(push_tok(s, 2, 2, e0) == e0);
    assert(scan_dims(s, 2) == scan_dims_at(s, 3, 3, e0));
    assert forall|k: int| 3 <= k < 3 + dw implies s[k] != 10 && s[k] != 32 by {
        assert(s[k] == dec_bytes(w)[k - 3]);
        assert(is_digit(dec_bytes(w)[k - 3]));
    }
    lemma_scan_run(s, 3, 3, 3 + dw, e0);
    assert(token_parses(s.subrange(3, 3 + dw), dims_bound()));
    let v1 = e0.push(w);
    assert(push_tok(s, 3, 3 + dw, e0) == v1);
    assert(scan_dims_at(s, 3, 3 + dw, e0) == scan_dims_at(s, 4 + dw, 4 + dw, v1));
    assert forall|k: int| 4 + dw <= k < 4 + dw + dh implies s[k] != 10 && s[k] != 32 by {
        assert(s[k] == dec_bytes(h)[k - 4 - dw]);
        assert(is_digit(dec_bytes(h)[k - 4 - dw]));
    }
    lemma_scan_run(s, 4 + dw, 4 + dw, 4 + dw + dh, v1);
    assert(token_parses(s.subrange(4 + dw, 4 + dw + dh), dims_bound()));
    let v2 = v1.push(h);
    assert(push_tok(s, 4 + dw, 4 + dw + dh, v1) == v2);
    assert(v2.len() == 2 && v2[0] == w && v2[1] == h);
    assert(scan_dims_at(s, 4 + dw, 4 + dw + dh, v1) == Some((w, h, 5 + dw + dh)));
}

/// A max-value line laid out as the writer lays it out — the decimal
/// digits of the value, then a newline — reads back as that value.
pub proof fn lemma_maxval_encoded(s: Seq<u8>, p: int, m: u16)
    requires
        0 <= p,
        p + dec_bytes(m as nat).len() < s.len(),
        s.subrange(p, p + dec_bytes(m as nat).len() as int) == dec_bytes(m as nat),
        s[p + dec_bytes(m as nat).len() as int] == 10,
    ensures
        maxval_at(s, p) == Some((m, p + dec_bytes(m as nat).len() + 1)),
{
    lemma_dec_bytes(m as nat);
    let dm = dec_bytes(m as nat).len() as int;
    assert forall|k: int| p <= k < p + dm implies s[k] != 10 by {
        assert(s[k] == dec_bytes(m as nat)[k - p]);
        assert(is_digit(dec_bytes(m as nat)[k - p]));
    }
    lemma_line_end_run(s, p, p + dm);
    assert(token_parses(s.subrange(p, p + dm), 65535));
    assert(token_to_nat(s.subrange(p, p + dm)) == m as nat);
}

/// A run of bytes without a newline, ended by a newline, is one header
/// line.
pub proof fn lemma_line_end_run(s: Seq<u8>, i: int, e: int)
    requires
        0 <= i <= e < s.len(),
        forall|k: int| i <= k < e ==> #[trigger] s[k] != 10,
        s[e] == 10,
    ensures
        line_end(s, i) == e,
    decreases e - i,
{
    if i < e {
        lemma_line_end_run(s, i + 1, e);
    }
}

} // verus!
