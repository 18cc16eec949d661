//! The graymap family: one channel per pixel, plain magic `P2`, raw magic
//! `P5`, with an explicit max-value header line that selects one- or
//! two-byte samples.
use vstd::prelude::*;
use crate::{NetPBM, NetPBMSaver};
use crate::numeral::{dec_bytes, dec_chars, dec_len, lemma_dec_bytes, push_dec, push_dec_str,
    dec_len16};
use crate::sample::{field_chars, gm_payload, grid_le, lemma_gm_payload_index,
    lemma_sample_split_merge, push_field, push_sample, read_sample, row_bytes, row_fields_ascii,
    grid_fields_ascii, sample_bytes, sample_width};
use crate::seqs::{concat_all, lemma_concat_all_push};
use crate::text::{comment_block, push_comment, push_char};
use crate::tokens::{sample_vals, vals_le, collect_samples, lemma_sample_vals_len};
use crate::header::{scan_dims, maxval_at, find_dims, read_maxval, lemma_scan_encoded_dims,
    lemma_maxval_encoded};

verus! {

/// type for NetPGM files.
pub struct NetPGMFile {
    /// image width in pixels.
    pub width: usize,
    /// image height in pixels.
    pub height: usize,
    /// the largest representable sample value.
    pub max_val: u16,
    /// row-major sample grid; 0 is black, `max_val` is white.
    pub pixels: Vec<Vec<u16>>,
}

impl NetPGMFile {
    /// The sample grid as a sequence of rows.
    pub open spec fn grid(&self) -> Seq<Seq<u16>> {
        Seq::new(self.pixels@.len(), |r: int| self.pixels@[r]@)
    }
}

impl NetPBMSaver for NetPGMFile {
    open spec fn wf(&self) -> bool {
        &&& self.width >= 1
        &&& self.height >= 1
        &&& self.grid().len() == self.height
        &&& forall|r: int|
            0 <= r < self.grid().len() ==> (#[trigger] self.grid()[r]).len() == self.width
        &&& grid_le(self.grid(), self.max_val)
    }

    open spec fn ascii_spec(&self, comment: Option<Seq<char>>) -> Seq<char> {
        "P2"@ + (match comment {
            Some(c) => comment_block(c),
            None => Seq::empty(),
        }) + "\n"@ + dec_chars(self.width as nat) + " "@ + dec_chars(self.height as nat) + "\n"@
            + dec_chars(self.max_val as nat) + "\n"@ + grid_fields_ascii(
            self.grid(),
            dec_len(self.max_val as nat),
        ) + "\n"@
    }

    open spec fn raw_spec(&self) -> Seq<u8> {
        seq![80u8, 53u8, 10u8] + dec_bytes(self.width as nat) + seq![32u8] + dec_bytes(
            self.height as nat,
        ) + seq![10u8] + dec_bytes(self.max_val as nat) + seq![10u8] + gm_payload(
            self.grid(),
            self.max_val,
        )
    }

    fn to_ascii(&self, comment: Option<&str>) -> (r: String) {
        let ghost copt: Option<Seq<char>> = match comment {
            Some(c) => Some(c@),
            None => None,
        };
        let mut out = String::new();
        out.append("P2");
        match comment {
            Some(c) => push_comment(&mut out, c),
            None => {},
        }
        out.append("\n");
        push_dec_str(&mut out, self.width as u64);
        out.append(" ");
        push_dec_str(&mut out, self.height as u64);
        out.append("\n");
        push_dec_str(&mut out, self.max_val as u64);
        out.append("\n");
        let ghost head = out@;
        proof {
            assert(head =~= "P2"@ + (match copt {
                Some(c) => comment_block(c),
                None => Seq::<char>::empty(),
            }) + "\n"@ + dec_chars(self.width as nat) + " "@ + dec_chars(self.height as nat)
                + "\n"@ + dec_chars(self.max_val as nat) + "\n"@);
        }
        let ghost g = self.grid();
        let ghost fw = dec_len(self.max_val as nat);
        let h = self.height;
        let w = self.width;
        let fwid = dec_len16(self.max_val);
        let mut r: usize = 0;
        while r < h
            invariant
                self.wf(),
                w == self.width,
                h == self.height,
                g == self.grid(),
                fw == dec_len(self.max_val as nat),
                fwid == fw,
                0 <= r <= h,
                out@ == head + grid_fields_ascii(g.subrange(0, r as int), fw),
            decreases h - r,
        {
            if r > 0 {
                push_char(&mut out, '\n');
            }
            let ghost mid = out@;
            let row = &self.pixels[r];
            let ghost rowv = g[r as int];
            assert(row@ == rowv);
            let mut c: usize = 0;
            while c < w
                invariant
                    w == rowv.len(),
                    row@ == rowv,
                    fw == dec_len(self.max_val as nat),
                    fwid == fw,
                    0 <= c <= w,
                    out@ == mid + row_fields_ascii(rowv.subrange(0, c as int), fw),
                decreases w - c,
            {
                if c > 0 {
                    push_char(&mut out, ' ');
                }
                push_field(&mut out, row[c], fwid);
                proof {
                    let pre = rowv.subrange(0, c as int);
                    let cur = rowv.subrange(0, c + 1);
                    assert(cur.drop_last() =~= pre);
                    assert(cur.last() == rowv[c as int]);
                    if c == 0 {
                        assert(cur[0] == rowv[0]);
                        assert(out@ =~= mid + row_fields_ascii(cur, fw));
                    } else {
                        assert(out@ =~= mid + row_fields_ascii(cur, fw));
                    }
                }
                c = c + 1;
            }
            proof {
                assert(rowv.subrange(0, w as int) =~= rowv);
                let gpre = g.subrange(0, r as int);
                let gcur = g.subrange(0, r + 1);
                assert(gcur.drop_last() =~= gpre);
                assert(gcur.last() == g[r as int]);
                if r == 0 {
                    assert(gcur[0] == g[0]);
                    assert(out@ =~= head + grid_fields_ascii(gcur, fw));
                } else {
                    assert(out@ =~= head + grid_fields_ascii(gcur, fw));
                }
            }
            r = r + 1;
        }
        out.append("\n");
        proof {
            assert(g.subrange(0, h as int) =~= g);
            assert(out@ =~= self.ascii_spec(copt));
        }
        out
    }

    fn to_raw(&self) -> (r: Vec<u8>) {
        let mut out: Vec<u8> = Vec::new();
        out.push(80);
        out.push(53);
        out.push(10);
        push_dec(&mut out, self.width as u64);
        out.push(32);
        push_dec(&mut out, self.height as u64);
        out.push(10);
        push_dec(&mut out, self.max_val as u64);
        out.push(10);
        let ghost head = out@;
        proof {
            assert(head =~= seq![80u8, 53u8, 10u8] + dec_bytes(self.width as nat) + seq![32u8]
                + dec_bytes(self.height as nat) + seq![10u8] + dec_bytes(self.max_val as nat)
                + seq![10u8]);
        }
        let ghost g = self.grid();
        let m = self.max_val;
        let h = self.height;
        let w = self.width;
        let mut r: usize = 0;
        while r < h
            invariant
                self.wf(),
                w == self.width,
                h == self.height,
                m == self.max_val,
                g == self.grid(),
                0 <= r <= h,
                out@ == head + concat_all(Seq::new(r as nat, |i: int| row_bytes(g[i], m))),
            decreases h - r,
        {
            let ghost mid = out@;
            let row = &self.pixels[r];
            let ghost rowv = g[r as int];
            assert(row@ == rowv);
            let mut c: usize = 0;
            while c < w
                invariant
                    w == rowv.len(),
                    row@ == rowv,
                    m == self.max_val,
                    0 <= c <= w,
                    out@ == mid + concat_all(
                        Seq::new(c as nat, |j: int| sample_bytes(rowv[j], m)),
                    ),
                decreases w - c,
            {
                push_sample(&mut out, row[c], m);
                proof {
                    let pre = Seq::new(c as nat, |j: int| sample_bytes(rowv[j], m));
                    let cur = Seq::new((c + 1) as nat, |j: int| sample_bytes(rowv[j], m));
                    assert(cur.drop_last() =~= pre);
                    assert(cur.last() == sample_bytes(rowv[c as int], m));
                    lemma_concat_all_push(pre, sample_bytes(rowv[c as int], m));
                    assert(out@ =~= mid + concat_all(cur));
                }
                c = c + 1;
            }
            proof {
                assert(Seq::new(w as nat, |j: int| sample_bytes(rowv[j], m)) =~= Seq::new(
                    rowv.len(),
                    |j: int| sample_bytes(rowv[j], m),
                ));
                assert(out@ == mid + row_bytes(rowv, m));
                let pre = Seq::new(r as nat, |i: int| row_bytes(g[i], m));
                let cur = Seq::new((r + 1) as nat, |i: int| row_bytes(g[i], m));
                assert(cur.drop_last() =~= pre);
                assert(cur.last() == row_bytes(g[r as int], m));
                lemma_concat_all_push(pre, row_bytes(g[r as int], m));
                assert(out@ =~= head + concat_all(cur));
            }
            r = r + 1;
        }
        proof {
            assert(Seq::new(h as nat, |i: int| row_bytes(g[i], m)) =~= Seq::new(
                g.len(),
                |i: int| row_bytes(g[i], m),
            ));
            assert(out@ =~= self.raw_spec());
        }
        out
    }
}

impl NetPBM<NetPGMFile> {
    /// create a new PGM File.
    ///
    /// - width      - immutable size for image width.
    /// - height     - immutable size for image height.
    pub fn new_pgm(width: usize, height: usize, max_val: u16) -> (img: Self)
        requires
            width >= 1,
            height >= 1,
        ensures
            img.wf(),
            img.class.width == width,
            img.class.height == height,
            img.class.max_val == max_val,
            img.class.grid() == Seq::new(
                height as nat,
                |r: int| Seq::new(width as nat, |c: int| 0u16),
            ),
    {
        let class = NetPGMFile {
            width,
            height,
            max_val,
            pixels: vec![vec![0u16; width]; height],
        };
        proof {
            assert(class.grid() =~~= Seq::new(
                height as nat,
                |r: int| Seq::new(width as nat, |c: int| 0u16),
            ));
        }
        Self { class }
    }

    /// set a pixels value.
    ///
    /// - x     - x position of pixel. does nothing if not in image.
    /// - y     - y position of pixel. does nothing if not in image.
    /// - value - value of pixel. 0 is black, max_val is white.
    pub fn set_pixel(&mut self, x: usize, y: usize, value: u16)
        requires
            old(self).wf(),
        ensures
            final(self).wf(),
            final(self).class.width == old(self).class.width,
            final(self).class.height == old(self).class.height,
            final(self).class.max_val == old(self).class.max_val,
            x < old(self).class.width && y < old(self).class.height && value <= old(
                self,
            ).class.max_val ==> final(self).class.grid() == old(self).class.grid().update(
                y as int,
                old(self).class.grid()[y as int].update(x as int, value),
            ),
            !(x < old(self).class.width && y < old(self).class.height && value <= old(
                self,
            ).class.max_val) ==> *final(self) == *old(self),
    {
        if x < self.class.width && y < self.class.height && value <= self.class.max_val {
            proof {
                assert(self.class.pixels@.len() == self.class.grid().len());
                assert(self.class.pixels@[y as int]@.len() == self.class.grid()[y as int].len());
            }
            self.class.pixels[y][x] = value;
            proof {
                let og = old(self).class.grid();
                let ng = self.class.grid();
                assert(ng[y as int] =~= og[y as int].update(x as int, value));
                assert(ng =~= og.update(y as int, og[y as int].update(x as int, value)));
            }
        }
    }

    /// get a pixels value.
    ///
    /// - x     - x position of pixel. does nothing if not in image.
    /// - y     - y position of pixel. does nothing if not in image.
    ///
    /// returns - value of pixel. 0 is black, max_val is white.
    pub fn get_pixel(&mut self, x: usize, y: usize) -> (r: Option<u16>)
        requires
            old(self).wf(),
        ensures
            *final(self) == *old(self),
            x < old(self).class.width && y < old(self).class.height ==> r == Some(
                old(self).class.grid()[y as int][x as int],
            ),
            !(x < old(self).class.width && y < old(self).class.height) ==> r is None,
    {
        if x < self.class.width && y < self.class.height {
            proof {
                assert(self.class.pixels@.len() == self.class.grid().len());
                assert(self.class.pixels@[y as int]@.len() == self.class.grid()[y as int].len());
            }
            return Some(self.class.pixels[y][x]);
        }
        None
    }
}

/// What decoding a graymap stream yields: dimensions and max-value from the
/// header, then the payload in the variant the magic selected — one- or
/// two-byte binary samples, or whitespace-separated ASCII integers.
/// Nothing is yielded when the header is malformed, a dimension is zero,
/// the payload is short, or a sample exceeds the max-value.
pub open spec fn decode_pgm_spec(s: Seq<u8>) -> Option<(nat, nat, u16, Seq<Seq<u16>>)> {
    let start: int = if s.len() >= 2 {
        2
    } else {
        s.len() as int
    };
    match scan_dims(s, start) {
        Some((w, h, p0)) => match maxval_at(s, p0) {
            Some((m, p)) => {
                if w == 0 || h == 0 {
                    None
                } else if s.len() >= 2 && s[0] == 80 && s[1] == 53 {
                    let sw = sample_width(m) as int;
                    if p + (h as int) * (w as int) * sw <= s.len() {
                        let g = Seq::new(
                            h,
                            |r: int|
                                Seq::new(
                                    w,
                                    |c: int| read_sample(s, p + (r * (w as int) + c) * sw, m),
                                ),
                        );
                        if grid_le(g, m) {
                            Some((w, h, m, g))
                        } else {
                            None
                        }
                    } else {
                        None
                    }
                } else {
                    let vals = sample_vals(s, p);
                    if (w * h) as int <= vals.len() && vals_le(vals, (w * h) as int, m) {
                        Some(
                            (
                                w,
                                h,
                                m,
                                Seq::new(
                                    h,
                                    |r: int| Seq::new(w, |c: int| vals[r * (w as int) + c]),
                                ),
                            ),
                        )
                    } else {
                        None
                    }
                }
            },
            None => None,
        },
        None => None,
    }
}

/// load a pgm image from bytes.
/// either P2 or P5
#[verifier::loop_isolation(false)]
pub fn decode_pgm(bytes: &Vec<u8>) -> (r: Option<NetPBM<NetPGMFile>>)
    ensures
        match decode_pgm_spec(bytes@) {
            Some((w, h, m, g)) => r matches Some(img) && img.wf() && img.class.width as nat == w
                && img.class.height as nat == h && img.class.max_val == m && img.class.grid() == g,
            None => r is None,
        },
{
    let ghost s = bytes@;
    let n = bytes.len();
    let is_bin = n >= 2 && bytes[0] == 80 && bytes[1] == 53;
    let start = if n >= 2 {
        2
    } else {
        n
    };
    let (w, h, p0) = match find_dims(bytes, start) {
        Some(t) => t,
        None => {
            return None;
        },
    };
    let (m, p) = match read_maxval(bytes, p0) {
        Some(t) => t,
        None => {
            return None;
        },
    };
    if w == 0 || h == 0 {
        return None;
    }
    if is_bin {
        let sw: usize = if m > 255 {
            2
        } else {
            1
        };
        let rowlen = match w.checked_mul(sw) {
            Some(v) => v,
            None => {
                proof {
                    assert((h as int) * (w as int) * (sw as int) > usize::MAX)
                        by (nonlinear_arith)
                        requires
                            (w as int) * (sw as int) > usize::MAX,
                            h >= 1,
                    ;
                }
                return None;
            },
        };
        let need = match h.checked_mul(rowlen) {
            Some(v) => v,
            None => {
                proof {
                    assert((h as int) * (w as int) * (sw as int) == (h as int) * ((w as int) * (
                    sw as int))) by (nonlinear_arith);
                }
                return None;
            },
        };
        proof {
            assert((h as int) * (w as int) * (sw as int) == (h as int) * ((w as int) * (sw as int)))
                by (nonlinear_arith);
        }
        if need > n - p {
            return None;
        }
        let ghost gspec = Seq::new(
            h as nat,
            |r: int|
                Seq::new(
                    w as nat,
                    |c: int|
                        read_sample(s, p + (r * (w as int) + c) * (sample_width(m) as int), m),
                ),
        );
        let mut rows: Vec<Vec<u16>> = Vec::new();
        let mut pos: usize = p;
        let mut r: usize = 0;
        while r < h
            invariant
                s == bytes@,
                n == s.len(),
                0 <= r <= h,
                w >= 1,
                h >= 1,
                sw as nat == sample_width(m),
                p + (h as int) * ((w as int) * (sw as int)) <= n,
                pos as int == p + (r as int) * ((w as int) * (sw as int)),
                rows@.len() == r,
                forall|i: int| 0 <= i < r ==> (#[trigger] rows@[i])@ == gspec[i],
                forall|i: int, k: int|
                    0 <= i < r && 0 <= k < w ==> #[trigger] rows@[i]@[k] <= m,
                gspec == Seq::new(
                    h as nat,
                    |r: int|
                        Seq::new(
                            w as nat,
                            |c: int|
                                read_sample(
                                    s,
                                    p + (r * (w as int) + c) * (sample_width(m) as int),
                                    m,
                                ),
                        ),
                ),
            decreases h - r,
        {
            let mut row: Vec<u16> = Vec::new();
            let mut c: usize = 0;
            while c < w
                invariant
                    s == bytes@,
                    n == s.len(),
                    0 <= c <= w,
                    r < h,
                    sw as nat == sample_width(m),
                    p + (h as int) * ((w as int) * (sw as int)) <= n,
                    pos as int == p + (r as int) * ((w as int) * (sw as int)) + (c as int) * (
                    sw as int),
                    row@.len() == c,
                    forall|k: int|
                        0 <= k < c ==> #[trigger] row@[k] == read_sample(
                            s,
                            p + ((r as int) * (w as int) + k) * (sample_width(m) as int),
                            m,
                        ),
                    forall|k: int| 0 <= k < c ==> #[trigger] row@[k] <= m,
                decreases w - c,
            {
                proof {
                    assert((r as int) * ((w as int) * (sw as int)) + (c as int) * (sw as int) + (
                    sw as int) <= (h as int) * ((w as int) * (sw as int))) by (nonlinear_arith)
                        requires
                            0 <= r,
                            r + 1 <= h as int,
                            0 <= c,
                            c + 1 <= w as int,
                            sw >= 1,
                    ;
                    assert((r as int) * ((w as int) * (sw as int)) + (c as int) * (sw as int) == ((
                    r as int) * (w as int) + (c as int)) * (sw as int)) by (nonlinear_arith);
                }
                let v: u16 = if m > 255 {
                    let hi = bytes[pos];
                    let lo = bytes[pos + 1];
                    (hi as u16) * 256 + (lo as u16)
                } else {
                    bytes[pos] as u16
                };
                proof {
                    assert(v == read_sample(s, pos as int, m));
                }
                if v > m {
                    proof {
                        assert(gspec[r as int][c as int] == read_sample(
                            s,
                            p + ((r as int) * (w as int) + c as int) * (sample_width(m) as int),
                            m,
                        ));
                        assert(gspec[r as int][c as int] > m);
                        assert(!grid_le(gspec, m));
                    }
                    return None;
                }
                row.push(v);
                proof {
                    assert((c as int + 1) * (sw as int) == (c as int) * (sw as int) + (sw as int))
                        by (nonlinear_arith);
                }
                pos = pos + sw;
                c = c + 1;
            }
            rows.push(row);
            proof {
                assert(rows@[r as int]@ =~= gspec[r as int]);
                assert((r as int) * ((w as int) * (sw as int)) + (w as int) * (sw as int) == ((
                r as int) + 1) * ((w as int) * (sw as int))) by (nonlinear_arith);
            }
            r = r + 1;
        }
        let class = NetPGMFile { width: w, height: h, max_val: m, pixels: rows };
        proof {
            assert(class.grid() =~~= gspec);
            assert(grid_le(gspec, m));
        }
        return Some(NetPBM { class });
    }
    let need = match w.checked_mul(h) {
        Some(v) => v,
        None => {
            proof {
                lemma_sample_vals_len(s, p as int);
            }
            return None;
        },
    };
    let ghost vals = sample_vals(s, p as int);
    let flat = match collect_samples(bytes, p, need) {
        Some(v) => v,
        None => {
            return None;
        },
    };
    let ghost gspec = Seq::new(
        h as nat,
        |r: int| Seq::new(w as nat, |c: int| vals[r * (w as int) + c]),
    );
    let mut rows: Vec<Vec<u16>> = Vec::new();
    let mut r: usize = 0;
    while r < h
        invariant
            0 <= r <= h,
            w >= 1,
            h >= 1,
            need == w * h,
            flat@.len() == need,
            vals == sample_vals(s, p as int),
            vals.len() >= need,
            forall|j: int| 0 <= j < need ==> flat@[j] == vals[j],
            rows@.len() == r,
            forall|i: int| 0 <= i < r ==> (#[trigger] rows@[i])@ == gspec[i],
            forall|i: int, k: int| 0 <= i < r && 0 <= k < w ==> #[trigger] rows@[i]@[k] <= m,
            gspec == Seq::new(
                h as nat,
                |r: int| Seq::new(w as nat, |c: int| vals[r * (w as int) + c]),
            ),
        decreases h - r,
    {
        proof {
            assert((r as int) * (w as int) + (w as int) <= (w as int) * (h as int))
                by (nonlinear_arith)
                requires
                    r as int + 1 <= h as int,
                    w >= 1,
            ;
        }
        let base = r * w;
        let mut row: Vec<u16> = Vec::new();
        let mut c: usize = 0;
        while c < w
            invariant
                0 <= c <= w,
                base as int == (r as int) * (w as int),
                base + w <= need,
                need == w * h,
                flat@.len() == need,
                vals.len() >= need,
                forall|j: int| 0 <= j < need ==> flat@[j] == vals[j],
                row@.len() == c,
                forall|k: int| 0 <= k < c ==> #[trigger] row@[k] == vals[base as int + k],
                forall|k: int| 0 <= k < c ==> #[trigger] row@[k] <= m,
            decreases w - c,
        {
            let v = flat[base + c];
            if v > m {
                proof {
                    assert(vals[base as int + c] > m);
                    assert(0 <= base as int + c < (w * h) as int);
                    assert(!vals_le(vals, (w * h) as int, m));
                }
                return None;
            }
            row.push(v);
            c = c + 1;
        }
        rows.push(row);
        proof {
            assert(rows@[r as int]@ =~= gspec[r as int]);
        }
        r = r + 1;
    }
    let class = NetPGMFile { width: w, height: h, max_val: m, pixels: rows };
    proof {
        assert(class.grid() =~~= gspec);
        assert(vals_le(vals, (w * h) as int, m)) by {
            assert forall|j: int| 0 <= j < (w * h) as int implies #[trigger] vals[j] <= m by {
                let r0 = j / (w as int);
                let c0 = j % (w as int);
                vstd::arithmetic::div_mod::lemma_fundamental_div_mod(j, w as int);
                assert(0 <= r0 < h as int && 0 <= c0 < w as int) by (nonlinear_arith)
                    requires
                        0 <= j < (w as int) * (h as int),
                        j == (w as int) * r0 + c0,
                        0 <= c0 < w as int,
                ;
                assert(gspec[r0][c0] == vals[r0 * (w as int) + c0]);
                assert(r0 * (w as int) + c0 == j) by (nonlinear_arith)
                    requires
                        j == (w as int) * r0 + c0,
                ;
                assert(rows@[r0]@[c0] <= m);
            }
        }
    }
    Some(NetPBM { class })
}

/// Writing a well-formed graymap in the raw form and decoding those bytes
/// reproduces the same width, height, max-value and sample grid.
pub proof fn lemma_pgm_round_trip(img: NetPGMFile)
    requires
        img.wf(),
    ensures
        decode_pgm_spec(img.raw_spec()) == Some(
            (img.width as nat, img.height as nat, img.max_val, img.grid()),
        ),
{
    let s = img.raw_spec();
    let w = img.width as nat;
    let h = img.height as nat;
    let m = img.max_val;
    let g = img.grid();
    let sw = sample_width(m) as int;
    lemma_dec_bytes(w);
    lemma_dec_bytes(h);
    lemma_dec_bytes(m as nat);
    let dw = dec_bytes(w).len() as int;
    let dh = dec_bytes(h).len() as int;
    let dm = dec_bytes(m as nat).len() as int;
    let p0 = 5 + dw + dh;
    let p = p0 + dm + 1;
    lemma_gm_payload_index(g, m, w, 0, 0, 0);
    assert(gm_payload(g, m).len() == h * (w * sample_width(m)));
    assert((h * (w * sample_width(m))) as int == (h as int) * (w as int) * sw)
        by (nonlinear_arith)
        requires
            sw == sample_width(m) as int,
    ;
    assert(s.len() == p + (h as int) * (w as int) * sw);
    assert((h as int) * (w as int) * sw >= 1) by (nonlinear_arith)
        requires
            h >= 1,
            w >= 1,
            sw >= 1,
    ;
    assert(s[0] == 80 && s[1] == 53 && s[2] == 10);
    assert(s.subrange(3, 3 + dw) =~= dec_bytes(w));
    assert(s[3 + dw] == 32);
    assert(s.subrange(4 + dw, 4 + dw + dh) =~= dec_bytes(h));
    assert(s[4 + dw + dh] == 10);
    lemma_scan_encoded_dims(s, w, h);
    assert(scan_dims(s, 2) == Some((w, h, p0)));
    assert(s.subrange(p0, p0 + dm) =~= dec_bytes(m as nat));
    assert(s[p0 + dm] == 10);
    lemma_maxval_encoded(s, p0, m);
    assert(maxval_at(s, p0) == Some((m, p)));
    let target = Seq::new(
        h,
        |r: int| Seq::new(w, |c: int| read_sample(s, p + (r * (w as int) + c) * sw, m)),
    );
    assert forall|r: int, c: int| 0 <= r < h && 0 <= c < w implies #[trigger] target[r][c]
        == g[r][c] by {
        let base = (r * (w as int) + c) * sw;
        lemma_gm_payload_index(g, m, w, r, c, 0);
        assert(0 <= base && base + sw <= (h as int) * (w as int) * sw) by (nonlinear_arith)
            requires
                0 <= r < h as int,
                0 <= c < w as int,
                sw >= 1,
                base == (r * (w as int) + c) * sw,
        ;
        assert(s[p + base] == sample_bytes(g[r][c], m)[0]);
        if m > 255 {
            lemma_gm_payload_index(g, m, w, r, c, 1);
            assert(s[p + base + 1] == sample_bytes(g[r][c], m)[1]);
            lemma_sample_split_merge(g[r][c]);
        } else {
            assert(g[r][c] <= 255);
        }
    }
    assert(grid_le(target, m)) by {
        assert forall|r: int, c: int|
            0 <= r < target.len() && 0 <= c < target[r].len() implies #[trigger] target[r][c]
            <= m by {
            assert(target[r][c] == g[r][c]);
        }
    }
    assert(target =~~= g);
    assert(decode_pgm_spec(s) == Some((w, h, m, target)));
}

} // verus!
