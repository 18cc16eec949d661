//! The pixmap family: three channels per pixel in RGB order, plain magic
//! `P3`, raw magic `P6`, with an explicit max-value header line that
//! selects one- or two-byte samples.
use vstd::prelude::*;
use crate::{NetPBM, NetPBMSaver};
use crate::numeral::{dec_bytes, dec_chars, dec_len, lemma_dec_bytes, push_dec, push_dec_str,
    dec_len16};
use crate::sample::{gm_payload, lemma_gm_payload_index, lemma_sample_split_merge, push_field,
    push_sample, read_sample, row_bytes, row_fields_ascii, grid_fields_ascii, sample_bytes,
    sample_width};
use crate::seqs::{concat_all, lemma_concat_all_push, lemma_concat_all_len, lemma_concat_all_index};
use crate::text::{comment_block, push_comment, push_char};
use crate::tokens::{sample_vals, vals_le, collect_samples, lemma_sample_vals_len};
use crate::header::{scan_dims, maxval_at, find_dims, read_maxval, lemma_scan_encoded_dims,
    lemma_maxval_encoded};

verus! {

/// type for NetPPM files.
pub struct NetPPMFile {
    /// image width in pixels.
    pub width: usize,
    /// image height in pixels.
    pub height: usize,
    /// the largest representable channel value.
    pub max_val: u16,
    /// row-major pixel grid, each pixel three channels in RGB order.
    pub pixels: Vec<Vec<[u16; 3]>>,
}

/// Every channel of one pixel is within the format's range.
pub open spec fn px_le(p: Seq<u16>, m: u16) -> bool {
    forall|k: int| 0 <= k < p.len() ==> #[trigger] p[k] <= m
}

/// Every channel of every pixel is within the format's range.
pub open spec fn grid3_le(g: Seq<Seq<Seq<u16>>>, m: u16) -> bool {
    forall|r: int, c: int, k: int|
        0 <= r < g.len() && 0 <= c < g[r].len() && 0 <= k < g[r][c].len() ==> #[trigger] g[r][c][k]
            <= m
}

impl NetPPMFile {
    /// The pixel grid as rows of pixels of channel values.
    pub open spec fn grid3(&self) -> Seq<Seq<Seq<u16>>> {
        Seq::new(
            self.pixels@.len(),
            |r: int| Seq::new(self.pixels@[r]@.len(), |c: int| self.pixels@[r]@[c]@),
        )
    }

    /// The sample rows: each pixel row flattened to its channel values in
    /// order, which is exactly the order they take on the wire.
    pub open spec fn srows(&self) -> Seq<Seq<u16>> {
        Seq::new(self.grid3().len(), |r: int| concat_all(self.grid3()[r]))
    }
}

impl NetPBMSaver for NetPPMFile {
    open spec fn wf(&self) -> bool {
        &&& self.width >= 1
        &&& self.height >= 1
        &&& self.grid3().len() == self.height
        &&& forall|r: int|
            0 <= r < self.grid3().len() ==> (#[trigger] self.grid3()[r]).len() == self.width
        &&& forall|r: int, c: int|
            0 <= r < self.grid3().len() && 0 <= c < self.width ==> (#[trigger] self.grid3()[r][c]).len() == 3
        &&& grid3_le(self.grid3(), self.max_val)
    }

    open spec fn ascii_spec(&self, comment: Option<Seq<char>>) -> Seq<char> {
        "P3"@ + (match comment {
            Some(c) => comment_block(c),
            None => Seq::empty(),
        }) + "\n"@ + dec_chars(self.width as nat) + " "@ + dec_chars(self.height as nat) + "\n"@
            + dec_chars(self.max_val as nat) + "\n"@ + grid_fields_ascii(
            self.srows(),
            dec_len(self.max_val as nat),
        ) + "\n"@
    }

    open spec fn raw_spec(&self) -> Seq<u8> {
        seq![80u8, 54u8, 10u8] + dec_bytes(self.width as nat) + seq![32u8] + dec_bytes(
            self.height as nat,
        ) + seq![10u8] + dec_bytes(self.max_val as nat) + seq![10u8] + gm_payload(
            self.srows(),
            self.max_val,
        )
    }

    #[verifier::rlimit(80)]
    fn to_ascii(&self, comment: Option<&str>) -> (r: String) {
        let ghost copt: Option<Seq<char>> = match comment {
            Some(c) => Some(c@),
            None => None,
        };
        let mut out = String::new();
        out.append("P3");
        match comment {
            Some(c) => push_comment(&mut out, c),
            None => {},
        }
        out.append("\n");
        push_dec_str(&mut out, self.width as u64);
        out.append(" ");
        push_dec_str(&mut out, self.height as u64);
        out.append("\n");
        push_dec_str(&mut out, self.max_val as u64);
        out.append("\n");
        let ghost head = out@;
        proof {
            assert(head =~= "P3"@ + (match copt {
                Some(c) => comment_block(c),
                None => Seq::<char>::empty(),
            }) + "\n"@ + dec_chars(self.width as nat) + " "@ + dec_chars(self.height as nat)
                + "\n"@ + dec_chars(self.max_val as nat) + "\n"@);
        }
        let ghost g = self.srows();
        let ghost fw = dec_len(self.max_val as nat);
        let h = self.height;
        let w = self.width;
        let fwid = dec_len16(self.max_val);
        let mut r: usize = 0;
        while r < h
            invariant
                self.wf(),
                w == self.width,
                h == self.height,
                g == self.srows(),
                fw == dec_len(self.max_val as nat),
                fwid == fw,
                0 <= r <= h,
                out@ == head + grid_fields_ascii(g.subrange(0, r as int), fw),
            decreases h - r,
        {
            if r > 0 {
                push_char(&mut out, '\n');
            }
            let ghost mid = out@;
            let row = &self.pixels[r];
            let ghost rowp = self.grid3()[r as int];
            let ghost rowflat = g[r as int];
            proof {
                assert(rowflat == concat_all(rowp));
                assert(forall|c: int| 0 <= c < rowp.len() ==> (#[trigger] rowp[c]).len() == 3);
                lemma_concat_all_len(rowp, 3);
                assert(rowflat.len() == (w as int) * 3) by (nonlinear_arith)
                    requires
                        rowflat.len() == rowp.len() * 3,
                        rowp.len() == w,
                ;
            }
            let mut c: usize = 0;
            while c < w
                invariant
                    self.wf(),
                    w == self.width,
                    r < h == self.height,
                    rowp == self.grid3()[r as int],
                    rowflat == concat_all(rowp),
                    rowflat.len() == (w as int) * 3,
                    row@ == self.pixels@[r as int]@,
                    fw == dec_len(self.max_val as nat),
                    fwid == fw,
                    0 <= c <= w,
                    out@ == mid + row_fields_ascii(rowflat.subrange(0, 3 * (c as int)), fw),
                decreases w - c,
            {
                let px = &row[c];
                proof {
                    assert(px@ == rowp[c as int]);
                    lemma_concat_all_index(rowp, 3, c as int, 0);
                    lemma_concat_all_index(rowp, 3, c as int, 1);
                    lemma_concat_all_index(rowp, 3, c as int, 2);
                    assert(0 <= 3 * (c as int) && 3 * (c as int) + 3 <= rowflat.len())
                        by (nonlinear_arith)
                        requires
                            0 <= c < w,
                            rowflat.len() == (w as int) * 3,
                    ;
                }
                if c > 0 {
                    push_char(&mut out, ' ');
                }
                push_field(&mut out, px[0], fwid);
                proof {
                    let kk = 3 * (c as int);
                    let cur = rowflat.subrange(0, kk + 1);
                    assert(cur.drop_last() =~= rowflat.subrange(0, kk));
                    assert(cur.last() == rowflat[kk]);
                    if c == 0 {
                        assert(cur[0] == rowflat[0]);
                        assert(out@ =~= mid + row_fields_ascii(cur, fw));
                    } else {
                        assert(out@ =~= mid + row_fields_ascii(cur, fw));
                    }
                }
                push_char(&mut out, ' ');
                push_field(&mut out, px[1], fwid);
                proof {
                    let kk = 3 * (c as int) + 1;
                    let cur = rowflat.subrange(0, kk + 1);
                    assert(cur.drop_last() =~= rowflat.subrange(0, kk));
                    assert(cur.last() == rowflat[kk]);
                    assert(out@ =~= mid + row_fields_ascii(cur, fw));
                }
                push_char(&mut out, ' ');
                push_field(&mut out, px[2], fwid);
                proof {
                    let kk = 3 * (c as int) + 2;
                    let cur = rowflat.subrange(0, kk + 1);
                    assert(cur.drop_last() =~= rowflat.subrange(0, kk));
                    assert(cur.last() == rowflat[kk]);
                    assert(out@ =~= mid + row_fields_ascii(cur, fw));
                    assert(3 * (c as int) + 3 == 3 * (c as int + 1));
                }
                c = c + 1;
            }
            proof {
                assert(rowflat.subrange(0, 3 * (w as int)) =~= rowflat);
                let gpre = g.subrange(0, r as int);
                let gcur = g.subrange(0, r + 1);
                assert(gcur.drop_last() =~= gpre);
                assert(gcur.last() == g[r as int]);
                if r == 0 {
                    assert(gcur[0] == g[0]);
                    assert(out@ =~= head + grid_fields_ascii(gcur, fw));
                } else {
                    assert(out@ =~= head + grid_fields_ascii(gcur, fw));
                }
            }
            r = r + 1;
        }
        out.append("\n");
        proof {
            assert(g.subrange(0, h as int) =~= g);
            assert(out@ =~= self.ascii_spec(copt));
        }
        out
    }

    #[verifier::rlimit(80)]
    fn to_raw(&self) -> (r: Vec<u8>) {
        let mut out: Vec<u8> = Vec::new();
        out.push(80);
        out.push(54);
        out.push(10);
        push_dec(&mut out, self.width as u64);
        out.push(32);
        push_dec(&mut out, self.height as u64);
        out.push(10);
        push_dec(&mut out, self.max_val as u64);
        out.push(10);
        let ghost head = out@;
        proof {
            assert(head =~= seq![80u8, 54u8, 10u8] + dec_bytes(self.width as nat) + seq![32u8]
                + dec_bytes(self.height as nat) + seq![10u8] + dec_bytes(self.max_val as nat)
                + seq![10u8]);
        }
        let ghost g = self.srows();
        let m = self.max_val;
        let h = self.height;
        let w = self.width;
        let mut r: usize = 0;
        while r < h
            invariant
                self.wf(),
                w == self.width,
                h == self.height,
                m == self.max_val,
                g == self.srows(),
                0 <= r <= h,
                out@ == head + concat_all(Seq::new(r as nat, |i: int| row_bytes(g[i], m))),
            decreases h - r,
        {
            let ghost mid = out@;
            let row = &self.pixels[r];
            let ghost rowp = self.grid3()[r as int];
            let ghost rowflat = g[r as int];
            proof {
                assert(rowflat == concat_all(rowp));
                assert(forall|c: int| 0 <= c < rowp.len() ==> (#[trigger] rowp[c]).len() == 3);
                lemma_concat_all_len(rowp, 3);
                assert(rowflat.len() == (w as int) * 3) by (nonlinear_arith)
                    requires
                        rowflat.len() == rowp.len() * 3,
                        rowp.len() == w,
                ;
            }
            let mut c: usize = 0;
            while c < w
                invariant
                    self.wf(),
                    w == self.width,
                    r < h == self.height,
                    m == self.max_val,
                    rowp == self.grid3()[r as int],
                    rowflat == concat_all(rowp),
                    rowflat.len() == (w as int) * 3,
                    row@ == self.pixels@[r as int]@,
                    0 <= c <= w,
                    out@ == mid + concat_all(
                        Seq::new((3 * (c as int)) as nat, |j: int| sample_bytes(rowflat[j], m)),
                    ),
                decreases w - c,
            {
                let px = &row[c];
                proof {
                    assert(px@ == rowp[c as int]);
                    lemma_concat_all_index(rowp, 3, c as int, 0);
                    lemma_concat_all_index(rowp, 3, c as int, 1);
                    lemma_concat_all_index(rowp, 3, c as int, 2);
                    assert(0 <= 3 * (c as int) && 3 * (c as int) + 3 <= rowflat.len())
                        by (nonlinear_arith)
                        requires
                            0 <= c < w,
                            rowflat.len() == (w as int) * 3,
                    ;
                }
                push_sample(&mut out, px[0], m);
                proof {
                    let kk = 3 * (c as int);
                    let pre = Seq::new(kk as nat, |j: int| sample_bytes(rowflat[j], m));
                    let cur = Seq::new((kk + 1) as nat, |j: int| sample_bytes(rowflat[j], m));
                    assert(cur.drop_last() =~= pre);
                    assert(cur.last() == sample_bytes(rowflat[kk], m));
                    lemma_concat_all_push(pre, sample_bytes(rowflat[kk], m));
                    assert(out@ =~= mid + concat_all(cur));
                }
                push_sample(&mut out, px[1], m);
                proof {
                    let kk = 3 * (c as int) + 1;
                    let pre = Seq::new(kk as nat, |j: int| sample_bytes(rowflat[j], m));
                    let cur = Seq::new((kk + 1) as nat, |j: int| sample_bytes(rowflat[j], m));
                    assert(cur.drop_last() =~= pre);
                    assert(cur.last() == sample_bytes(rowflat[kk], m));
                    lemma_concat_all_push(pre, sample_bytes(rowflat[kk], m));
                    assert(out@ =~= mid + concat_all(cur));
                }
                push_sample(&mut out, px[2], m);
                proof {
                    let kk = 3 * (c as int) + 2;
                    let pre = Seq::new(kk as nat, |j: int| sample_bytes(rowflat[j], m));
                    let cur = Seq::new((kk + 1) as nat, |j: int| sample_bytes(rowflat[j], m));
                    assert(cur.drop_last() =~= pre);
                    assert(cur.last() == sample_bytes(rowflat[kk], m));
                    lemma_concat_all_push(pre, sample_bytes(rowflat[kk], m));
                    assert(out@ =~= mid + concat_all(cur));
                    assert(3 * (c as int) + 3 == 3 * (c as int + 1));
                }
                c = c + 1;
            }
            proof {
                assert(Seq::new((3 * (w as int)) as nat, |j: int| sample_bytes(rowflat[j], m))
                    =~= Seq::new(rowflat.len(), |j: int| sample_bytes(rowflat[j], m)));
                assert(out@ == mid + row_bytes(rowflat, m));
                let pre = Seq::new(r as nat, |i: int| row_bytes(g[i], m));
                let cur = Seq::new((r + 1) as nat, |i: int| row_bytes(g[i], m));
                assert(cur.drop_last() =~= pre);
                assert(cur.last() == row_bytes(g[r as int], m));
                lemma_concat_all_push(pre, row_bytes(g[r as int], m));
                assert(out@ =~= head + concat_all(cur));
            }
            r = r + 1;
        }
        proof {
            assert(Seq::new(h as nat, |i: int| row_bytes(g[i], m)) =~= Seq::new(
                g.len(),
                |i: int| row_bytes(g[i], m),
            ));
            assert(out@ =~= self.raw_spec());
        }
        out
    }
}

/// What decoding a pixmap stream yields: dimensions and max-value from the
/// header, then pixels of three channels each, read in the variant the
/// magic selected.  Nothing is yielded when the header is malformed, a
/// dimension is zero, the payload is short, or a channel exceeds the
/// max-value.
pub open spec fn decode_ppm_spec(s: Seq<u8>) -> Option<(nat, nat, u16, Seq<Seq<Seq<u16>>>)> {
    let start: int = if s.len() >= 2 {
        2
    } else {
        s.len() as int
    };
    match scan_dims(s, start) {
        Some((w, h, p0)) => match maxval_at(s, p0) {
            Some((m, p)) => {
                if w == 0 || h == 0 {
                    None
                } else if s.len() >= 2 && s[0] == 80 && s[1] == 54 {
                    let sw = sample_width(m) as int;
                    if p + (h as int) * (w as int) * 3 * sw <= s.len() {
                        let g = Seq::new(
                            h,
                            |r: int|
                                Seq::new(
                                    w,
                                    |c: int|
                                        Seq::new(
                                            3,
                                            |k: int|
                                                read_sample(
                                                    s,
                                                    p + ((r * (w as int) + c) * 3 + k) * sw,
                                                    m,
                                                ),
                                        ),
                                ),
                        );
                        if grid3_le(g, m) {
                            Some((w, h, m, g))
                        } else {
                            None
                        }
                    } else {
                        None
                    }
                } else {
                    let vals = sample_vals(s, p);
                    if (3 * w * h) as int <= vals.len() && vals_le(vals, (3 * w * h) as int, m) {
                        Some(
                            (
                                w,
                                h,
                                m,
                                Seq::new(
                                    h,
                                    |r: int|
                                        Seq::new(
                                            w,
                                            |c: int|
                                                Seq::new(
                                                    3,
                                                    |k: int| vals[(r * (w as int) + c) * 3 + k],
                                                ),
                                        ),
                                ),
                            ),
                        )
                    } else {
                        None
                    }
                }
            },
            None => None,
        },
        None => None,
    }
}

/// load a ppm image from bytes.
/// either P3 or P6
#[verifier::loop_isolation(false)]
#[verifier::rlimit(100)]
pub fn decode_ppm(bytes: &Vec<u8>) -> (r: Option<NetPBM<NetPPMFile>>)
    ensures
        match decode_ppm_spec(bytes@) {
            Some((w, h, m, g)) => r matches Some(img) && img.wf() && img.class.width as nat == w
                && img.class.height as nat == h && img.class.max_val == m && img.class.grid3()
                == g,
            None => r is None,
        },
{
    let ghost s = bytes@;
    let n = bytes.len();
    let is_bin = n >= 2 && bytes[0] == 80 && bytes[1] == 54;
    let start = if n >= 2 {
        2
    } else {
        n
    };
    let (w, h, p0) = match find_dims(bytes, start) {
        Some(t) => t,
        None => {
            return None;
        },
    };
    let (m, p) = match read_maxval(bytes, p0) {
        Some(t) => t,
        None => {
            return None;
        },
    };
    if w == 0 || h == 0 {
        return None;
    }
    if is_bin {
        let sw: usize = if m > 255 {
            2
        } else {
            1
        };
        let q: usize = 3 * sw;
        let rowlen = match w.checked_mul(q) {
            Some(v) => v,
            None => {
                proof {
                    assert((h as int) * (w as int) * 3 * (sw as int) >= (w as int) * (q as int))
                        by (nonlinear_arith)
                        requires
                            h >= 1,
                            q == 3 * sw,
                            sw >= 1,
                            w >= 1,
                    ;
                }
                return None;
            },
        };
        let need = match h.checked_mul(rowlen) {
            Some(v) => v,
            None => {
                proof {
                    assert((h as int) * (w as int) * 3 * (sw as int) == (h as int) * ((w as int) * (
                    q as int))) by (nonlinear_arith)
                        requires
                            q == 3 * sw,
                    ;
                }
                return None;
            },
        };
        proof {
            assert((h as int) * (w as int) * 3 * (sw as int) == (h as int) * ((w as int) * (
            q as int))) by (nonlinear_arith)
                requires
                    q == 3 * sw,
            ;
        }
        if need > n - p {
            return None;
        }
        let ghost gspec = Seq::new(
            h as nat,
            |r: int|
                Seq::new(
                    w as nat,
                    |c: int|
                        Seq::new(
                            3,
                            |k: int|
                                read_sample(
                                    s,
                                    p + ((r * (w as int) + c) * 3 + k) * (sample_width(m) as int),
                                    m,
                                ),
                        ),
                ),
        );
        let mut rows: Vec<Vec<[u16; 3]>> = Vec::new();
        let mut pos: usize = p;
        let mut r: usize = 0;
        while r < h
            invariant
                pos as int == p + (r as int) * ((w as int) * (q as int)),
                0 <= r <= h,
                rows@.len() == r,
                forall|i: int| 0 <= i < r ==> (#[trigger] rows@[i])@.len() == w,
                forall|i: int, cx: int|
                    0 <= i < r && 0 <= cx < w ==> (#[trigger] rows@[i]@[cx])@ == gspec[i][cx],
                forall|i: int, cx: int|
                    0 <= i < r && 0 <= cx < w ==> px_le((#[trigger] rows@[i]@[cx])@, m),
            decreases h - r,
        {
            let mut row: Vec<[u16; 3]> = Vec::new();
            let mut c: usize = 0;
            while c < w
                invariant
                    r < h,
                    0 <= c <= w,
                    pos as int == p + (r as int) * ((w as int) * (q as int)) + (c as int) * (
                    q as int),
                    row@.len() == c,
                    forall|cx: int| 0 <= cx < c ==> (#[trigger] row@[cx])@ == gspec[r as int][cx],
                    forall|cx: int| 0 <= cx < c ==> px_le((#[trigger] row@[cx])@, m),
                decreases w - c,
            {
                proof {
                    assert((r as int) * ((w as int) * (q as int)) + (c as int) * (q as int) + (
                    q as int) <= (h as int) * ((w as int) * (q as int))) by (nonlinear_arith)
                        requires
                            0 <= r,
                            r + 1 <= h as int,
                            0 <= c,
                            c + 1 <= w as int,
                            q >= 1,
                    ;
                    assert((r as int) * ((w as int) * (q as int)) + (c as int) * (q as int) == ((
                    r as int) * (w as int) + c as int) * 3 * (sw as int)) by (nonlinear_arith)
                        requires
                            q == 3 * sw,
                    ;
                    assert(((r as int) * (w as int) + c as int) * 3 * (sw as int) == (((r as int)
                        * (w as int) + c as int) * 3 + 0) * (sw as int)) by (nonlinear_arith);
                    assert((((r as int) * (w as int) + c as int) * 3 + 1) * (sw as int) == ((
                    r as int) * (w as int) + c as int) * 3 * (sw as int) + (sw as int))
                        by (nonlinear_arith);
                    assert((((r as int) * (w as int) + c as int) * 3 + 2) * (sw as int) == ((
                    r as int) * (w as int) + c as int) * 3 * (sw as int) + 2 * (sw as int))
                        by (nonlinear_arith);
                }
                let v0: u16 = if m > 255 {
                    (bytes[pos] as u16) * 256 + (bytes[pos + 1] as u16)
                } else {
                    bytes[pos] as u16
                };
                let v1: u16 = if m > 255 {
                    (bytes[pos + sw] as u16) * 256 + (bytes[pos + sw + 1] as u16)
                } else {
                    bytes[pos + sw] as u16
                };
                let v2: u16 = if m > 255 {
                    (bytes[pos + 2 * sw] as u16) * 256 + (bytes[pos + 2 * sw + 1] as u16)
                } else {
                    bytes[pos + 2 * sw] as u16
                };
                proof {
                    assert(v0 == read_sample(s, pos as int, m));
                    assert(v1 == read_sample(s, pos as int + sw as int, m));
                    assert(v2 == read_sample(s, pos as int + 2 * (sw as int), m));
                    assert(gspec[r as int][c as int][0] == v0);
                    assert(gspec[r as int][c as int][1] == v1);
                    assert(gspec[r as int][c as int][2] == v2);
                }
                if v0 > m || v1 > m || v2 > m {
                    proof {
                        assert(!grid3_le(gspec, m));
                    }
                    return None;
                }
                let px: [u16; 3] = [v0, v1, v2];
                row.push(px);
                proof {
                    assert(px@ =~= gspec[r as int][c as int]);
                    assert(px@[0] == v0 && px@[1] == v1 && px@[2] == v2);
                    assert(px_le(px@, m));
                    assert((c as int + 1) * (q as int) == (c as int) * (q as int) + (q as int))
                        by (nonlinear_arith);
                }
                pos = pos + q;
                c = c + 1;
            }
            rows.push(row);
            proof {
                assert((r as int) * ((w as int) * (q as int)) + (w as int) * (q as int) == ((
                r as int) + 1) * ((w as int) * (q as int))) by (nonlinear_arith);
            }
            r = r + 1;
        }
        let class = NetPPMFile { width: w, height: h, max_val: m, pixels: rows };
        proof {
            assert(class.grid3() =~~= gspec);
            assert(grid3_le(gspec, m)) by {
                assert forall|rx: int, cx: int, k: int|
                    0 <= rx < gspec.len() && 0 <= cx < gspec[rx].len() && 0 <= k
                        < gspec[rx][cx].len() implies #[trigger] gspec[rx][cx][k] <= m by {
                    assert(rows@[rx]@[cx]@ == gspec[rx][cx]);
                    assert(px_le(rows@[rx]@[cx]@, m));
                }
            }
        }
        return Some(NetPBM { class });
    }
    let wh = match w.checked_mul(h) {
        Some(v) => v,
        None => {
            proof {
                lemma_sample_vals_len(s, p as int);
                assert((3 * (w as int) * (h as int)) >= (w as int) * (h as int))
                    by (nonlinear_arith)
                    requires
                        w >= 1,
                        h >= 1,
                ;
            }
            return None;
        },
    };
    let need = match wh.checked_mul(3) {
        Some(v) => v,
        None => {
            proof {
                lemma_sample_vals_len(s, p as int);
                assert((3 * (w as int) * (h as int)) == ((w as int) * (h as int)) * 3)
                    by (nonlinear_arith);
            }
            return None;
        },
    };
    proof {
        assert((3 * (w as int) * (h as int)) == ((w as int) * (h as int)) * 3)
            by (nonlinear_arith);
    }
    let ghost vals = sample_vals(s, p as int);
    let flat = match collect_samples(bytes, p, need) {
        Some(v) => v,
        None => {
            return None;
        },
    };
    let ghost gspec = Seq::new(
        h as nat,
        |r: int|
            Seq::new(
                w as nat,
                |c: int| Seq::new(3, |k: int| vals[(r * (w as int) + c) * 3 + k]),
            ),
    );
    let mut rows: Vec<Vec<[u16; 3]>> = Vec::new();
    let mut base: usize = 0;
    let mut r: usize = 0;
    while r < h
        invariant
            0 <= r <= h,
            base as int == (r as int) * (w as int) * 3,
            rows@.len() == r,
            forall|i: int| 0 <= i < r ==> (#[trigger] rows@[i])@.len() == w,
            forall|i: int, cx: int|
                0 <= i < r && 0 <= cx < w ==> (#[trigger] rows@[i]@[cx])@ == gspec[i][cx],
            forall|i: int, cx: int|
                0 <= i < r && 0 <= cx < w ==> px_le((#[trigger] rows@[i]@[cx])@, m),
        decreases h - r,
    {
        let mut row: Vec<[u16; 3]> = Vec::new();
        let mut c: usize = 0;
        while c < w
            invariant
                r < h,
                0 <= c <= w,
                base as int == ((r as int) * (w as int) + c as int) * 3,
                row@.len() == c,
                forall|cx: int| 0 <= cx < c ==> (#[trigger] row@[cx])@ == gspec[r as int][cx],
                forall|cx: int| 0 <= cx < c ==> px_le((#[trigger] row@[cx])@, m),
            decreases w - c,
        {
            proof {
                assert(((r as int) * (w as int) + c as int) * 3 + 3 <= ((w as int) * (h as int))
                    * 3) by (nonlinear_arith)
                    requires
                        0 <= r,
                        r + 1 <= h as int,
                        0 <= c,
                        c + 1 <= w as int,
                ;
            }
            let v0 = flat[base];
            let v1 = flat[base + 1];
            let v2 = flat[base + 2];
            proof {
                assert(gspec[r as int][c as int][0] == v0);
                assert(gspec[r as int][c as int][1] == v1);
                assert(gspec[r as int][c as int][2] == v2);
            }
            if v0 > m || v1 > m || v2 > m {
                proof {
                    assert(!vals_le(vals, (3 * (w as nat) * (h as nat)) as int, m));
                }
                return None;
            }
            let px: [u16; 3] = [v0, v1, v2];
            row.push(px);
            proof {
                assert(px@ =~= gspec[r as int][c as int]);
                assert(px@[0] == v0 && px@[1] == v1 && px@[2] == v2);
                assert(px_le(px@, m));
            }
            base = base + 3;
            c = c + 1;
        }
        rows.push(row);
        proof {
            assert(((r as int) * (w as int) + w as int) * 3 == ((r as int) + 1) * (w as int) * 3)
                by (nonlinear_arith);
        }
        r = r + 1;
    }
    let class = NetPPMFile { width: w, height: h, max_val: m, pixels: rows };
    proof {
        assert(class.grid3() =~~= gspec);
        assert(vals_le(vals, (3 * (w as nat) * (h as nat)) as int, m)) by {
            assert forall|j: int| 0 <= j < 3 * (w as int) * (h as int) implies #[trigger] vals[j]
                <= m by {
                let t = j / 3;
                let k = j % 3;
                vstd::arithmetic::div_mod::lemma_fundamental_div_mod(j, 3);
                let r0 = t / (w as int);
                let c0 = t % (w as int);
                vstd::arithmetic::div_mod::lemma_fundamental_div_mod(t, w as int);
                assert(0 <= t < (w as int) * (h as int)) by (nonlinear_arith)
                    requires
                        0 <= j < 3 * (w as int) * (h as int),
                        j == 3 * t + k,
                        0 <= k < 3,
                ;
                assert(0 <= r0 < h as int && 0 <= c0 < w as int) by (nonlinear_arith)
                    requires
                        0 <= t < (w as int) * (h as int),
                        t == (w as int) * r0 + c0,
                        0 <= c0 < w as int,
                ;
                assert(gspec[r0][c0][k] == vals[(r0 * (w as int) + c0) * 3 + k]);
                assert((r0 * (w as int) + c0) * 3 + k == j) by (nonlinear_arith)
                    requires
                        t == (w as int) * r0 + c0,
                        j == 3 * t + k,
                ;
                assert(px_le(rows@[r0]@[c0]@, m));
                assert(rows@[r0]@[c0]@.len() == 3);
                assert(rows@[r0]@[c0]@[k] <= m);
            }
        }
    }
    Some(NetPBM { class })
}

/// Writing a well-formed pixmap in the raw form and decoding those bytes
/// reproduces the same width, height, max-value and pixel grid.
pub proof fn lemma_ppm_round_trip(img: NetPPMFile)
    requires
        img.wf(),
    ensures
        decode_ppm_spec(img.raw_spec()) == Some(
            (img.width as nat, img.height as nat, img.max_val, img.grid3()),
        ),
{
    let s = img.raw_spec();
    let w = img.width as nat;
    let h = img.height as nat;
    let m = img.max_val;
    let g3 = img.grid3();
    let g = img.srows();
    let sw = sample_width(m) as int;
    let w3: nat = 3 * w;
    lemma_dec_bytes(w);
    lemma_dec_bytes(h);
    lemma_dec_bytes(m as nat);
    let dw = dec_bytes(w).len() as int;
    let dh = dec_bytes(h).len() as int;
    let dm = dec_bytes(m as nat).len() as int;
    let p0 = 5 + dw + dh;
    let p = p0 + dm + 1;
    assert forall|i: int| 0 <= i < g.len() implies (#[trigger] g[i]).len() == w3 by {
        assert(forall|c: int| 0 <= c < g3[i].len() ==> (#[trigger] g3[i][c]).len() == 3);
        lemma_concat_all_len(g3[i], 3);
        assert(g3[i].len() * 3 == w3) by (nonlinear_arith)
            requires
                g3[i].len() == w,
                w3 == 3 * w,
        ;
    }
    lemma_gm_payload_index(g, m, w3, 0, 0, 0);
    assert(gm_payload(g, m).len() == h * (w3 * sample_width(m)));
    assert((h * (w3 * sample_width(m))) as int == (h as int) * (w as int) * 3 * sw)
        by (nonlinear_arith)
        requires
            sw == sample_width(m) as int,
            w3 == 3 * w,
    ;
    assert(s.len() == p + (h as int) * (w as int) * 3 * sw);
    assert((h as int) * (w as int) * 3 * sw >= 1) by (nonlinear_arith)
        requires
            h >= 1,
            w >= 1,
            sw >= 1,
    ;
    assert(s[0] == 80 && s[1] == 54 && s[2] == 10);
    assert(s.subrange(3, 3 + dw) =~= dec_bytes(w));
    assert(s[3 + dw] == 32);
    assert(s.subrange(4 + dw, 4 + dw + dh) =~= dec_bytes(h));
    assert(s[4 + dw + dh] == 10);
    lemma_scan_encoded_dims(s, w, h);
    assert(scan_dims(s, 2) == Some((w, h, p0)));
    assert(s.subrange(p0, p0 + dm) =~= dec_bytes(m as nat));
    assert(s[p0 + dm] == 10);
    lemma_maxval_encoded(s, p0, m);
    assert(maxval_at(s, p0) == Some((m, p)));
    let target = Seq::new(
        h,
        |r: int|
            Seq::new(
                w,
                |c: int|
                    Seq::new(
                        3,
                        |k: int| read_sample(s, p + ((r * (w as int) + c) * 3 + k) * sw, m),
                    ),
            ),
    );
    assert forall|r: int, c: int, k: int|
        0 <= r < h && 0 <= c < w && 0 <= k < 3 implies #[trigger] target[r][c][k]
        == g3[r][c][k] by {
        let cc = 3 * c + k;
        assert(0 <= cc < w3) by (nonlinear_arith)
            requires
                0 <= c < w,
                0 <= k < 3,
                w3 == 3 * w,
                cc == 3 * c + k,
        ;
        lemma_concat_all_index(g3[r], 3, c, k);
        assert(g[r][cc] == g3[r][c][k]);
        lemma_gm_payload_index(g, m, w3, r, cc, 0);
        let base = (r * (w as int) + c) * 3 + k;
        assert(r * (w3 as int) + cc == base) by (nonlinear_arith)
            requires
                w3 == 3 * w,
                cc == 3 * c + k,
                base == (r * (w as int) + c) * 3 + k,
        ;
        assert(0 <= base * sw && base * sw + sw <= (h as int) * (w as int) * 3 * sw)
            by (nonlinear_arith)
            requires
                0 <= r < h as int,
                0 <= c < w as int,
                0 <= k < 3,
                sw >= 1,
                base == (r * (w as int) + c) * 3 + k,
        ;
        assert(s[p + base * sw] == sample_bytes(g3[r][c][k], m)[0]);
        if m > 255 {
            lemma_gm_payload_index(g, m, w3, r, cc, 1);
            assert(s[p + base * sw + 1] == sample_bytes(g3[r][c][k], m)[1]);
            lemma_sample_split_merge(g3[r][c][k]);
        } else {
            assert(g3[r][c][k] <= 255);
        }
    }
    assert(grid3_le(target, m)) by {
        assert forall|r: int, c: int, k: int|
            0 <= r < target.len() && 0 <= c < target[r].len() && 0 <= k
                < target[r][c].len() implies #[trigger] target[r][c][k] <= m by {
            assert(target[r][c][k] == g3[r][c][k]);
        }
    }
    assert(target =~~= g3);
    assert(decode_ppm_spec(s) == Some((w, h, m, target)));
}

impl NetPBM<NetPPMFile> {
    /// create a new PPM File.
    ///
    /// - width      - immutable size for image width.
    /// - height     - immutable size for image height.
    pub fn new_ppm(width: usize, height: usize, max_val: u16) -> (img: Self)
        requires
            width >= 1,
            height >= 1,
        ensures
            img.wf(),
            img.class.width == width,
            img.class.height == height,
            img.class.max_val == max_val,
            img.class.grid3() == Seq::new(
                height as nat,
                |r: int| Seq::new(width as nat, |c: int| seq![0u16, 0u16, 0u16]),
            ),
    {
        let zero: [u16; 3] = [0u16; 3];
        proof {
            assert(zero@ =~= seq![0u16, 0u16, 0u16]);
        }
        let class = NetPPMFile {
            width,
            height,
            max_val,
            pixels: vec![vec![zero; width]; height],
        };
        proof {
            assert(class.grid3() =~~= Seq::new(
                height as nat,
                |r: int| Seq::new(width as nat, |c: int| seq![0u16, 0u16, 0u16]),
            ));
        }
        Self { class }
    }

    /// set a pixels color.
    ///
    /// - x     - x position of pixel. does nothing if not in image.
    /// - y     - y position of pixel. does nothing if not in image.
    /// - color - color of pixel. rgb order. 0 is black, max_val is white.
    pub fn set_pixel(&mut self, x: usize, y: usize, color: [u16; 3])
        requires
            old(self).wf(),
        ensures
            final(self).wf(),
            final(self).class.width == old(self).class.width,
            final(self).class.height == old(self).class.height,
            final(self).class.max_val == old(self).class.max_val,
            x < old(self).class.width && y < old(self).class.height && px_le(
                color@,
                old(self).class.max_val,
            ) ==> final(self).class.grid3() == old(self).class.grid3().update(
                y as int,
                old(self).class.grid3()[y as int].update(x as int, color@),
            ),
            !(x < old(self).class.width && y < old(self).class.height && px_le(
                color@,
                old(self).class.max_val,
            )) ==> *final(self) == *old(self),
    {
        if x < self.class.width && y < self.class.height && color[0] <= self.class.max_val
            && color[1] <= self.class.max_val && color[2] <= self.class.max_val {
            proof {
                assert(px_le(color@, self.class.max_val));
                assert(self.class.pixels@.len() == self.class.grid3().len());
                assert(self.class.pixels@[y as int]@.len() == self.class.grid3()[y as int].len());
            }
            self.class.pixels[y][x] = color;
            proof {
                let og = old(self).class.grid3();
                let ng = self.class.grid3();
                assert(ng[y as int] =~~= og[y as int].update(x as int, color@));
                assert(ng =~~= og.update(y as int, og[y as int].update(x as int, color@)));
            }
        } else {
            proof {
                if x < self.class.width && y < self.class.height {
                    assert(color@[0] == color[0] && color@[1] == color[1] && color@[2] == color[2]);
                    assert(!px_le(color@, self.class.max_val));
                }
            }
        }
    }

    /// get a pixels color.
    ///
    /// - x     - x position of pixel. does nothing if not in image.
    /// - y     - y position of pixel. does nothing if not in image.
    ///
    /// returns - color of pixel. rgb order. 0 is black, max_val is white.
    pub fn get_pixel(&mut self, x: usize, y: usize) -> (r: Option<[u16; 3]>)
        requires
            old(self).wf(),
        ensures
            *final(self) == *old(self),
            x < old(self).class.width && y < old(self).class.height ==> (r matches Some(px)
                && px@ == old(self).class.grid3()[y as int][x as int]),
            !(x < old(self).class.width && y < old(self).class.height) ==> r is None,
    {
        if x < self.class.width && y < self.class.height {
            proof {
                assert(self.class.pixels@.len() == self.class.grid3().len());
                assert(self.class.pixels@[y as int]@.len() == self.class.grid3()[y as int].len());
            }
            return Some(self.class.pixels[y][x]);
        }
        None
    }
}

} // verus!
