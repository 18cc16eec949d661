//! The bitmap family: 1-bit pixels, plain magic `P1`, raw magic `P4` with
//! one packed byte row per pixel row.
use vstd::prelude::*;
use crate::{NetPBM, NetPBMSaver};
use crate::numeral::{dec_bytes, dec_chars, lemma_dec_bytes, push_dec, push_dec_str};
use crate::sample::{bit_at, bit_msb, bytes_per_row, bytes_per_row_exec, get_bit, pack_byte,
    pack_row_byte, row_packed, lemma_pack_extract};
use crate::seqs::{concat_all, lemma_concat_all_push, lemma_concat_all_len, lemma_concat_all_index};
use crate::text::{comment_block, push_comment, push_char};
use crate::header::{scan_dims, find_dims, lemma_scan_encoded_dims};

verus! {

/// type for NetPBM files.
pub struct NetPBMFile {
    /// image width in pixels.
    pub width: usize,
    /// image height in pixels.
    pub height: usize,
    /// row-major pixel grid; `false` is white, `true` is black.
    pub pixels: Vec<Vec<bool>>,
}

impl NetPBMFile {
    /// The pixel grid as a sequence of rows.
    pub open spec fn grid(&self) -> Seq<Seq<bool>> {
        Seq::new(self.pixels@.len(), |r: int| self.pixels@[r]@)
    }
}

/// The character of one plain-format bitmap sample: unpadded `0` or `1`.
pub open spec fn bit_char(b: bool) -> char {
    if b {
        '1'
    } else {
        '0'
    }
}

/// One pixel row in the plain encoding: `0`/`1` fields joined by single
/// spaces.
pub open spec fn pbm_row_ascii(row: Seq<bool>) -> Seq<char>
    decreases row.len(),
{
    if row.len() == 0 {
        Seq::empty()
    } else if row.len() == 1 {
        seq![bit_char(row[0])]
    } else {
        pbm_row_ascii(row.drop_last()) + seq![' ', bit_char(row.last())]
    }
}

/// All pixel rows of the plain encoding, joined by newlines.
pub open spec fn pbm_rows_ascii(g: Seq<Seq<bool>>) -> Seq<char>
    decreases g.len(),
{
    if g.len() == 0 {
        Seq::empty()
    } else if g.len() == 1 {
        pbm_row_ascii(g[0])
    } else {
        pbm_rows_ascii(g.drop_last()) + seq!['\n'] + pbm_row_ascii(g.last())
    }
}

/// The packed payload of the raw encoding: each row packed to whole bytes.
pub open spec fn pbm_payload(g: Seq<Seq<bool>>) -> Seq<u8> {
    concat_all(Seq::new(g.len(), |r: int| row_packed(g[r])))
}

impl NetPBMSaver for NetPBMFile {
    open spec fn wf(&self) -> bool {
        &&& self.width >= 1
        &&& self.height >= 1
        &&& self.grid().len() == self.height
        &&& forall|r: int|
            0 <= r < self.grid().len() ==> (#[trigger] self.grid()[r]).len() == self.width
    }

    open spec fn ascii_spec(&self, comment: Option<Seq<char>>) -> Seq<char> {
        "P1"@ + (match comment {
            Some(c) => comment_block(c),
            None => Seq::empty(),
        }) + "\n"@ + dec_chars(self.width as nat) + " "@ + dec_chars(self.height as nat) + "\n"@
            + pbm_rows_ascii(self.grid()) + "\n"@
    }

    open spec fn raw_spec(&self) -> Seq<u8> {
        seq![80u8, 52u8, 10u8] + dec_bytes(self.width as nat) + seq![32u8] + dec_bytes(
            self.height as nat,
        ) + seq![10u8] + pbm_payload(self.grid())
    }

    fn to_ascii(&self, comment: Option<&str>) -> (r: String) {
        let ghost copt: Option<Seq<char>> = match comment {
            Some(c) => Some(c@),
            None => None,
        };
        let mut out = String::new();
        out.append("P1");
        match comment {
            Some(c) => push_comment(&mut out, c),
            None => {},
        }
        out.append("\n");
        push_dec_str(&mut out, self.width as u64);
        out.append(" ");
        push_dec_str(&mut out, self.height as u64);
        out.append("\n");
        let ghost head = out@;
        proof {
            assert(head =~= "P1"@ + (match copt {
                Some(c) => comment_block(c),
                None => Seq::<char>::empty(),
            }) + "\n"@ + dec_chars(self.width as nat) + " "@ + dec_chars(self.height as nat)
                + "\n"@);
        }
        let ghost g = self.grid();
        let h = self.height;
        let w = self.width;
        let mut r: usize = 0;
        while r < h
            invariant
                self.wf(),
                w == self.width,
                h == self.height,
                g == self.grid(),
                0 <= r <= h,
                out@ == head + pbm_rows_ascii(g.subrange(0, r as int)),
            decreases h - r,
        {
            if r > 0 {
                push_char(&mut out, '\n');
            }
            let ghost mid = out@;
            let row = &self.pixels[r];
            let ghost rowv = g[r as int];
            assert(row@ == rowv);
            let mut c: usize = 0;
            while c < w
                invariant
                    w == rowv.len(),
                    row@ == rowv,
                    0 <= c <= w,
                    out@ == mid + pbm_row_ascii(rowv.subrange(0, c as int)),
                decreases w - c,
            {
                if c > 0 {
                    push_char(&mut out, ' ');
                }
                if row[c] {
                    push_char(&mut out, '1');
                } else {
                    push_char(&mut out, '0');
                }
                proof {
                    let pre = rowv.subrange(0, c as int);
                    let cur = rowv.subrange(0, c + 1);
                    assert(cur.drop_last() =~= pre);
                    assert(cur.last() == rowv[c as int]);
                    if c == 0 {
                        assert(cur[0] == rowv[0]);
                        assert(out@ =~= mid + pbm_row_ascii(cur));
                    } else {
                        assert(out@ =~= mid + pbm_row_ascii(cur));
                    }
                }
                c = c + 1;
            }
            proof {
                assert(rowv.subrange(0, w as int) =~= rowv);
                let gpre = g.subrange(0, r as int);
                let gcur = g.subrange(0, r + 1);
                assert(gcur.drop_last() =~= gpre);
                assert(gcur.last() == g[r as int]);
                if r == 0 {
                    assert(gcur[0] == g[0]);
                    assert(out@ =~= head + pbm_rows_ascii(gcur));
                } else {
                    assert(out@ =~= head + pbm_rows_ascii(gcur));
                }
            }
            r = r + 1;
        }
        out.append("\n");
        proof {
            assert(g.subrange(0, h as int) =~= g);
            assert(out@ =~= self.ascii_spec(copt));
        }
        out
    }

    fn to_raw(&self) -> (r: Vec<u8>) {
        let mut out: Vec<u8> = Vec::new();
        out.push(80);
        out.push(52);
        out.push(10);
        push_dec(&mut out, self.width as u64);
        out.push(32);
        push_dec(&mut out, self.height as u64);
        out.push(10);
        let ghost head = out@;
        proof {
            assert(head =~= seq![80u8, 52u8, 10u8] + dec_bytes(self.width as nat) + seq![32u8]
                + dec_bytes(self.height as nat) + seq![10u8]);
        }
        let ghost g = self.grid();
        let h = self.height;
        let w = self.width;
        let bpr = bytes_per_row_exec(w);
        let mut r: usize = 0;
        while r < h
            invariant
                self.wf(),
                w == self.width,
                h == self.height,
                g == self.grid(),
                bpr as nat == bytes_per_row(w as nat),
                0 <= r <= h,
                out@ == head + concat_all(Seq::new(r as nat, |i: int| row_packed(g[i]))),
            decreases h - r,
        {
            let ghost mid = out@;
            let row = &self.pixels[r];
            let ghost rowv = g[r as int];
            assert(row@ == rowv);
            let mut j: usize = 0;
            while j < bpr
                invariant
                    row@ == rowv,
                    rowv.len() == w,
                    bpr as nat == bytes_per_row(w as nat),
                    0 <= j <= bpr,
                    out@ == mid + row_packed(rowv).subrange(0, j as int),
                decreases bpr - j,
            {
                let b = pack_row_byte(row, j);
                out.push(b);
                proof {
                    assert(row_packed(rowv).subrange(0, j + 1) =~= row_packed(rowv).subrange(
                        0,
                        j as int,
                    ).push(pack_byte(rowv, j as int)));
                    assert(out@ =~= mid + row_packed(rowv).subrange(0, j + 1));
                }
                j = j + 1;
            }
            proof {
                assert(row_packed(rowv).subrange(0, bpr as int) =~= row_packed(rowv));
                let pre = Seq::new(r as nat, |i: int| row_packed(g[i]));
                let cur = Seq::new((r + 1) as nat, |i: int| row_packed(g[i]));
                assert(cur.drop_last() =~= pre);
                assert(cur.last() == row_packed(g[r as int]));
                lemma_concat_all_push(pre, row_packed(g[r as int]));
                assert(concat_all(cur) == concat_all(pre.push(row_packed(g[r as int]))));
                assert(out@ =~= head + concat_all(cur));
            }
            r = r + 1;
        }
        proof {
            assert(Seq::new(h as nat, |i: int| row_packed(g[i])) =~= Seq::new(
                g.len(),
                |i: int| row_packed(g[i]),
            ));
            assert(out@ =~= self.raw_spec());
        }
        out
    }
}

/// Collects plain-format bitmap samples from the payload: each `0` or `1`
/// byte is one pixel, anything else is skipped.
pub open spec fn pbm_ascii_bits(s: Seq<u8>, i: int) -> Seq<bool>
    decreases s.len() - i,
{
    if i < 0 || i >= s.len() {
        Seq::empty()
    } else {
        (if s[i] == 48 {
            seq![false]
        } else if s[i] == 49 {
            seq![true]
        } else {
            Seq::empty()
        }) + pbm_ascii_bits(s, i + 1)
    }
}

proof fn lemma_pbm_ascii_bits_len(s: Seq<u8>, i: int)
    requires
        0 <= i <= s.len(),
    ensures
        pbm_ascii_bits(s, i).len() <= s.len() - i,
    decreases s.len() - i,
{
    if i < s.len() {
        lemma_pbm_ascii_bits_len(s, i + 1);
    }
}

/// What decoding a bitmap stream yields: the dimensions found by the header
/// scan, then the payload read in the variant the magic selected — packed
/// bytes, one row of `(width + 7) / 8` bytes per pixel row, when the stream
/// begins with the raw magic, else `0`/`1` characters.  Nothing is yielded
/// when the dimensions are missing or zero or the payload is short.
pub open spec fn decode_pbm_spec(s: Seq<u8>) -> Option<(nat, nat, Seq<Seq<bool>>)> {
    let start: int = if s.len() >= 2 {
        2
    } else {
        s.len() as int
    };
    match scan_dims(s, start) {
        Some((w, h, p)) => {
            if w == 0 || h == 0 {
                None
            } else if s.len() >= 2 && s[0] == 80 && s[1] == 52 {
                let bpr = bytes_per_row(w) as int;
                if p + (h as int) * bpr <= s.len() {
                    Some(
                        (
                            w,
                            h,
                            Seq::new(
                                h,
                                |r: int|
                                    Seq::new(
                                        w,
                                        |c: int| bit_msb(s[p + r * bpr + c / 8], c % 8),
                                    ),
                            ),
                        ),
                    )
                } else {
                    None
                }
            } else {
                let bits = pbm_ascii_bits(s, p);
                if w * h <= bits.len() {
                    Some(
                        (
                            w,
                            h,
                            Seq::new(h, |r: int| Seq::new(w, |c: int| bits[r * (w as int) + c])),
                        ),
                    )
                } else {
                    None
                }
            }
        },
        None => None,
    }
}

/// load a pbm image from bytes.
/// either P1 or P4
pub fn decode_pbm(bytes: &Vec<u8>) -> (r: Option<NetPBM<NetPBMFile>>)
    ensures
        match decode_pbm_spec(bytes@) {
            Some((w, h, g)) => r matches Some(img) && img.wf() && img.class.width as nat == w
                && img.class.height as nat == h && img.class.grid() == g,
            None => r is None,
        },
{
    let ghost s = bytes@;
    let n = bytes.len();
    let is_bin = n >= 2 && bytes[0] == 80 && bytes[1] == 52;
    let start = if n >= 2 {
        2
    } else {
        n
    };
    let (w, h, p) = match find_dims(bytes, start) {
        Some(t) => t,
        None => {
            return None;
        },
    };
    if w == 0 || h == 0 {
        return None;
    }
    if is_bin {
        let bpr = bytes_per_row_exec(w);
        assert(bpr >= 1) by {
            assert(bytes_per_row(w as nat) >= 1);
        }
        let need = match h.checked_mul(bpr) {
            Some(v) => v,
            None => {
                proof {
                    assert((h as int) * (bpr as int) > usize::MAX);
                }
                return None;
            },
        };
        if need > n - p {
            return None;
        }
        let ghost gspec = Seq::new(
            h as nat,
            |r: int|
                Seq::new(
                    w as nat,
                    |c: int| bit_msb(s[p + r * (bytes_per_row(w as nat) as int) + c / 8], c % 8),
                ),
        );
        let mut rows: Vec<Vec<bool>> = Vec::new();
        let mut rowbase: usize = p;
        let mut r: usize = 0;
        while r < h
            invariant
                s == bytes@,
                n == s.len(),
                0 <= r <= h,
                w >= 1,
                h >= 1,
                bpr as nat == bytes_per_row(w as nat),
                p + (h as int) * (bpr as int) <= n,
                rowbase as int == p + (r as int) * (bpr as int),
                rows@.len() == r,
                forall|i: int| 0 <= i < r ==> (#[trigger] rows@[i])@ == gspec[i],
                gspec == Seq::new(
                    h as nat,
                    |r: int|
                        Seq::new(
                            w as nat,
                            |c: int|
                                bit_msb(s[p + r * (bytes_per_row(w as nat) as int) + c / 8], c % 8),
                        ),
                ),
            decreases h - r,
        {
            proof {
                assert((r as int + 1) * (bpr as int) <= (h as int) * (bpr as int))
                    by (nonlinear_arith)
                    requires
                        r as int + 1 <= h as int,
                        bpr as int >= 1,
                ;
                vstd::arithmetic::mul::lemma_mul_is_distributive_add_other_way(
                    bpr as int,
                    r as int,
                    1,
                );
            }
            let mut row: Vec<bool> = Vec::new();
            let mut c: usize = 0;
            while c < w
                invariant
                    s == bytes@,
                    n == s.len(),
                    0 <= c <= w,
                    w >= 1,
                    bpr as nat == bytes_per_row(w as nat),
                    rowbase as int + bpr as int <= n,
                    row@.len() == c,
                    forall|k: int|
                        0 <= k < c ==> #[trigger] row@[k] == bit_msb(
                            s[rowbase as int + k / 8],
                            k % 8,
                        ),
                decreases w - c,
            {
                proof {
                    vstd::arithmetic::div_mod::lemma_div_is_ordered(c as int, w as int - 1, 8);
                    vstd::arithmetic::div_mod::lemma_hoist_over_denominator(w as int - 1, 1, 8);
                    assert(c as int / 8 < bpr as int);
                }
                let idx = rowbase + c / 8;
                let b = bytes[idx];
                let bit = get_bit(b, c % 8);
                row.push(bit);
                c = c + 1;
            }
            rows.push(row);
            proof {
                assert(rows@[r as int]@ =~= gspec[r as int]);
            }
            rowbase = rowbase + bpr;
            r = r + 1;
        }
        let class = NetPBMFile { width: w, height: h, pixels: rows };
        proof {
            assert(class.grid() =~~= gspec);
        }
        return Some(NetPBM { class });
    }
    let need = match w.checked_mul(h) {
        Some(v) => v,
        None => {
            proof {
                lemma_pbm_ascii_bits_len(s, p as int);
            }
            return None;
        },
    };
    let ghost bits = pbm_ascii_bits(s, p as int);
    let mut flat: Vec<bool> = Vec::new();
    let mut i: usize = p;
    while i < n && flat.len() < need
        invariant
            s == bytes@,
            n == s.len(),
            p <= i <= n,
            flat@.len() <= need,
            bits == pbm_ascii_bits(s, p as int),
            bits == flat@ + pbm_ascii_bits(s, i as int),
        decreases n - i,
    {
        let b = bytes[i];
        if b == 48 {
            flat.push(false);
        } else if b == 49 {
            flat.push(true);
        }
        proof {
            assert(bits =~= flat@ + pbm_ascii_bits(s, i + 1));
        }
        i = i + 1;
    }
    if flat.len() < need {
        proof {
            assert(pbm_ascii_bits(s, i as int) =~= Seq::<bool>::empty());
            assert(bits.len() < need);
        }
        return None;
    }
    proof {
        assert(bits.len() >= need);
        assert(forall|j: int| 0 <= j < need ==> bits[j] == flat@[j]);
    }
    let ghost gspec = Seq::new(
        h as nat,
        |r: int| Seq::new(w as nat, |c: int| bits[r * (w as int) + c]),
    );
    let mut rows: Vec<Vec<bool>> = Vec::new();
    let mut r: usize = 0;
    while r < h
        invariant
            0 <= r <= h,
            w >= 1,
            h >= 1,
            need == w * h,
            flat@.len() >= need,
            forall|j: int| 0 <= j < need ==> bits[j] == flat@[j],
            rows@.len() == r,
            forall|i: int| 0 <= i < r ==> (#[trigger] rows@[i])@ == gspec[i],
            gspec == Seq::new(
                h as nat,
                |r: int| Seq::new(w as nat, |c: int| bits[r * (w as int) + c]),
            ),
        decreases h - r,
    {
        proof {
            assert((r as int) * (w as int) + (w as int) <= (w as int) * (h as int))
                by (nonlinear_arith)
                requires
                    r as int + 1 <= h as int,
                    w >= 1,
            ;
        }
        let base = r * w;
        let mut row: Vec<bool> = Vec::new();
        let mut c: usize = 0;
        while c < w
            invariant
                0 <= c <= w,
                base as int == (r as int) * (w as int),
                base + w <= need,
                need == w * h,
                flat@.len() >= need,
                forall|j: int| 0 <= j < need ==> bits[j] == flat@[j],
                row@.len() == c,
                forall|k: int| 0 <= k < c ==> #[trigger] row@[k] == bits[base as int + k],
            decreases w - c,
        {
            row.push(flat[base + c]);
            c = c + 1;
        }
        rows.push(row);
        proof {
            assert(rows@[r as int]@ =~= gspec[r as int]);
        }
        r = r + 1;
    }
    let class = NetPBMFile { width: w, height: h, pixels: rows };
    proof {
        assert(class.grid() =~~= gspec);
    }
    Some(NetPBM { class })
}

/// Writing a well-formed bitmap in the raw form and decoding those bytes
/// reproduces the same width, height and pixel grid.
pub proof fn lemma_pbm_round_trip(img: NetPBMFile)
    requires
        img.wf(),
    ensures
        decode_pbm_spec(img.raw_spec()) == Some(
            (img.width as nat, img.height as nat, img.grid()),
        ),
{
    let s = img.raw_spec();
    let w = img.width as nat;
    let h = img.height as nat;
    let g = img.grid();
    lemma_dec_bytes(w);
    lemma_dec_bytes(h);
    let dw = dec_bytes(w).len() as int;
    let dh = dec_bytes(h).len() as int;
    let hdr = 5 + dw + dh;
    let bpr = bytes_per_row(w) as int;
    let packed = Seq::new(g.len(), |r: int| row_packed(g[r]));
    assert forall|i: int| 0 <= i < packed.len() implies (#[trigger] packed[i]).len()
        == bytes_per_row(w) by {
        assert(g[i].len() == w);
    }
    lemma_concat_all_len(packed, bytes_per_row(w));
    assert(pbm_payload(g).len() == h * bytes_per_row(w));
    assert(s.len() == hdr + (h as int) * bpr);
    assert((h as int) * bpr >= 1) by (nonlinear_arith)
        requires
            h >= 1,
            bpr >= 1,
    ;
    assert(s[0] == 80 && s[1] == 52 && s[2] == 10);
    assert(s.subrange(3, 3 + dw) =~= dec_bytes(w));
    assert(s[3 + dw] == 32);
    assert(s.subrange(4 + dw, 4 + dw + dh) =~= dec_bytes(h));
    assert(s[4 + dw + dh] == 10);
    lemma_scan_encoded_dims(s, w, h);
    assert(scan_dims(s, 2) == Some((w, h, hdr)));
    let target = Seq::new(h, |r: int| Seq::new(w, |c: int| bit_msb(s[hdr + r * bpr + c / 8], c % 8)));
    assert forall|r: int, c: int| 0 <= r < h && 0 <= c < w implies #[trigger] target[r][c] == g[r][c] by {
        vstd::arithmetic::div_mod::lemma_div_is_ordered(c, w as int - 1, 8);
        vstd::arithmetic::div_mod::lemma_hoist_over_denominator(w as int - 1, 1, 8);
        assert(c / 8 < bpr);
        assert(0 <= r * bpr + c / 8 < (h as int) * bpr) by (nonlinear_arith)
            requires
                0 <= r < h as int,
                0 <= c / 8 < bpr,
        ;
        lemma_concat_all_index(packed, bytes_per_row(w), r, c / 8);
        assert(pbm_payload(g)[r * bpr + c / 8] == pack_byte(g[r], c / 8));
        assert(s[hdr + r * bpr + c / 8] == pbm_payload(g)[r * bpr + c / 8]);
        vstd::arithmetic::div_mod::lemma_fundamental_div_mod(c, 8);
        lemma_pack_extract(g[r], c / 8, c % 8);
        assert(8 * (c / 8) + c % 8 == c);
        assert(bit_msb(pack_byte(g[r], c / 8), c % 8) == (bit_at(g[r], c) == 1));
    }
    assert(target =~~= g);
    assert(decode_pbm_spec(s) == Some((w, h, target)));
}

impl NetPBM<NetPBMFile> {
    /// create a new PBM File.
    ///
    /// - width      - immutable size for image width.
    /// - height     - immutable size for image height.
    pub fn new_pbm(width: usize, height: usize) -> (img: Self)
        requires
            width >= 1,
            height >= 1,
        ensures
            img.wf(),
            img.class.width == width,
            img.class.height == height,
            img.class.grid() == Seq::new(
                height as nat,
                |r: int| Seq::new(width as nat, |c: int| false),
            ),
    {
        let class = NetPBMFile { width, height, pixels: vec![vec![false; width]; height] };
        proof {
            assert(class.grid() =~~= Seq::new(
                height as nat,
                |r: int| Seq::new(width as nat, |c: int| false),
            ));
        }
        Self { class }
    }

    /// set a pixels value.
    ///
    /// - x     - x position of pixel. does nothing if not in image.
    /// - y     - y position of pixel. does nothing if not in image.
    /// - value - value of pixel. false is white, true is black.
    pub fn set_pixel(&mut self, x: usize, y: usize, value: bool)
        requires
            old(self).wf(),
        ensures
            final(self).wf(),
            final(self).class.width == old(self).class.width,
            final(self).class.height == old(self).class.height,
            x < old(self).class.width && y < old(self).class.height ==> final(self).class.grid()
                == old(self).class.grid().update(
                y as int,
                old(self).class.grid()[y as int].update(x as int, value),
            ),
            !(x < old(self).class.width && y < old(self).class.height) ==> *final(self) == *old(
                self,
            ),
    {
        if x < self.class.width && y < self.class.height {
            proof {
                assert(self.class.pixels@.len() == self.class.grid().len());
                assert(self.class.pixels@[y as int]@.len() == self.class.grid()[y as int].len());
            }
            self.class.pixels[y][x] = value;
            proof {
                let og = old(self).class.grid();
                let ng = self.class.grid();
                assert(ng[y as int] =~= og[y as int].update(x as int, value));
                assert(ng =~= og.update(y as int, og[y as int].update(x as int, value)));
            }
        }
    }

    /// get a pixels value.
    ///
    /// - x     - x position of pixel. does nothing if not in image.
    /// - y     - y position of pixel. does nothing if not in image.
    ///
    /// returns - value of pixel. false is white, true is black.
    pub fn get_pixel(&mut self, x: usize, y: usize) -> (r: Option<bool>)
        requires
            old(self).wf(),
        ensures
            *final(self) == *old(self),
            x < old(self).class.width && y < old(self).class.height ==> r == Some(
                old(self).class.grid()[y as int][x as int],
            ),
            !(x < old(self).class.width && y < old(self).class.height) ==> r is None,
    {
        if x < self.class.width && y < self.class.height {
            proof {
                assert(self.class.pixels@.len() == self.class.grid().len());
                assert(self.class.pixels@[y as int]@.len() == self.class.grid()[y as int].len());
            }
            return Some(self.class.pixels[y][x]);
        }
        None
    }
}

} // verus!
