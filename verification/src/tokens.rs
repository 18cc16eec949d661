//! ASCII payload tokenization for the reader: the remaining bytes are
//! split on whitespace and every token that reads as a 16-bit integer
//! becomes one sample; tokens that fail to parse are skipped without
//! consuming a sample slot.
use vstd::prelude::*;
use crate::numeral::{token_parses, token_to_nat, parse_token};

verus! {

/// ASCII whitespace, as the payload tokenizer splits on it.
pub open spec fn is_ws(b: u8) -> bool {
    b == 9 || b == 10 || b == 11 || b == 12 || b == 13 || b == 32
}

/// The sample one token yields: its value when it reads as a 16-bit
/// integer, nothing otherwise.
pub open spec fn val_of(s: Seq<u8>, from: int, to: int) -> Seq<u16> {
    if token_parses(s.subrange(from, to), 65535) {
        seq![token_to_nat(s.subrange(from, to)) as u16]
    } else {
        Seq::empty()
    }
}

/// The sample stream, one byte at a time: `tstart` is where the current
/// token began; whitespace ends a token, and the end of the stream ends
/// the last one.
pub open spec fn sample_vals_at(s: Seq<u8>, tstart: int, i: int) -> Seq<u16>
    decreases s.len() - i,
{
    if i >= s.len() {
        val_of(s, tstart, s.len() as int)
    } else if is_ws(s[i]) {
        val_of(s, tstart, i) + sample_vals_at(s, i + 1, i + 1)
    } else {
        sample_vals_at(s, tstart, i + 1)
    }
}

/// Every sample the ASCII payload starting at `p` yields, in order.
pub open spec fn sample_vals(s: Seq<u8>, p: int) -> Seq<u16> {
    sample_vals_at(s, p, p)
}

/// The first `count` samples of a stream are all within the format's
/// range.
pub open spec fn vals_le(vals: Seq<u16>, count: int, m: u16) -> bool {
    forall|j: int| 0 <= j < count ==> #[trigger] vals[j] <= m
}

/// Whether a byte is ASCII whitespace.
pub fn is_ws_exec(b: u8) -> (r: bool)
    ensures
        r == is_ws(b),
{
    b == 9 || b == 10 || b == 11 || b == 12 || b == 13 || b == 32
}

/// The payload yields at most one sample per byte: every sample needs a
/// non-empty token of its own.
pub proof fn lemma_sample_vals_len(s: Seq<u8>, p: int)
    requires
        0 <= p <= s.len(),
    ensures
        sample_vals(s, p).len() <= s.len() - p,
{
    lemma_sample_vals_at_len(s, p, p);
}

/// The sample stream from position `i` yields at most one sample per
/// remaining byte, plus one for the token in flight when one is open.
pub open spec fn sample_vals_at_len_bound(s: Seq<u8>, tstart: int, i: int) -> bool {
    sample_vals_at(s, tstart, i).len() <= s.len() - i + (if tstart < i {
        1int
    } else {
        0int
    })
}

proof fn lemma_sample_vals_at_len(s: Seq<u8>, tstart: int, i: int)
    requires
        0 <= i <= s.len(),
        tstart <= i,
    ensures
        sample_vals_at_len_bound(s, tstart, i),
    decreases s.len() - i,
{
    if i >= s.len() {
    } else if is_ws(s[i]) {
        lemma_sample_vals_at_len(s, i + 1, i + 1);
    } else {
        lemma_sample_vals_at_len(s, tstart, i + 1);
    }
}

/// Collects the first `need` samples of the ASCII payload starting at `p`,
/// or reports that the payload holds fewer.
pub fn collect_samples(bytes: &Vec<u8>, p: usize, need: usize) -> (r: Option<Vec<u16>>)
    requires
        p <= bytes@.len(),
    ensures
        match r {
            Some(v) => v@.len() == need && sample_vals(bytes@, p as int).len() >= need && (forall|
                j: int,
            | 0 <= j < need ==> v@[j] == sample_vals(bytes@, p as int)[j]),
            None => sample_vals(bytes@, p as int).len() < need,
        },
{
    let ghost s = bytes@;
    let n = bytes.len();
    let mut vals: Vec<u16> = Vec::new();
    let mut i: usize = p;
    let mut tstart: usize = p;
    loop
        invariant
            s == bytes@,
            n == s.len(),
            p <= tstart,
            tstart <= i <= n,
            vals@.len() <= need,
            sample_vals(s, p as int) == vals@ + sample_vals_at(s, tstart as int, i as int),
        decreases n - i,
    {
        if vals.len() == need {
            proof {
                assert(sample_vals(s, p as int).len() >= need);
                assert(forall|j: int|
                    0 <= j < need ==> vals@[j] == sample_vals(s, p as int)[j]);
            }
            return Some(vals);
        }
        if i == n {
            let tokr = parse_token(bytes, tstart, i, 65535);
            if let Some(v) = tokr {
                vals.push(v as u16);
                proof {
                    assert(val_of(s, tstart as int, n as int) =~= seq![v as u16]);
                    assert(sample_vals(s, p as int) =~= vals@);
                }
            } else {
                proof {
                    assert(val_of(s, tstart as int, n as int) =~= Seq::<u16>::empty());
                    assert(sample_vals(s, p as int) =~= vals@);
                }
            }
            if vals.len() >= need {
                proof {
                    assert(forall|j: int|
                        0 <= j < need ==> vals@[j] == sample_vals(s, p as int)[j]);
                }
                return Some(vals);
            } else {
                return None;
            }
        }
        if is_ws_exec(bytes[i]) {
            let tokr = parse_token(bytes, tstart, i, 65535);
            let ghost oldvals = vals@;
            if let Some(v) = tokr {
                vals.push(v as u16);
                proof {
                    assert(val_of(s, tstart as int, i as int) =~= seq![v as u16]);
                }
            } else {
                proof {
                    assert(val_of(s, tstart as int, i as int) =~= Seq::<u16>::empty());
                }
            }
            proof {
                assert(sample_vals(s, p as int) =~= vals@ + sample_vals_at(s, i + 1, i + 1));
            }
            tstart = i + 1;
            i = i + 1;
        } else {
            i = i + 1;
        }
    }
}

} // verus!
