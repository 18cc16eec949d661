//! The arbitrary-map container: a pixel carries `depth` channels, the
//! channel layout is named by a tuple type, and the encoding is raw only,
//! under the magic `P7` with a verbose multi-line header.
use vstd::prelude::*;
use vstd::string::StringSliceAdditionalSpecFns;
use crate::numeral::{dec_bytes, push_dec};
use crate::sample::{gm_payload, push_sample, row_bytes, sample_bytes};
use crate::seqs::{concat_all, lemma_concat_all_push, lemma_concat_all_len, lemma_concat_all_index};
use crate::ppm::{grid3_le, px_le};

verus! {

/// image types for NetPAM files.
pub enum TupleType {
    /// like NetPBM.
    BlackAndWhite,
    /// like NetPGM.
    Grayscale,
    /// like NetPPM.
    RGB,
    /// like NetPBM, but with transparency.
    BlackAndWhiteAlpha,
    /// like NetPGM, but with transparency.
    GrayscaleAlpha,
    /// like NetPPM, but with transparency.
    RGBAlpha,
    /// allows for custom extensible formats to NetPAM.
    Custom {
        /// the quantity of bytes per pixel.
        depth: u16,
        /// the name used in the header. SHOULD BE UNIQUE!
        tuple_type: &'static str,
    },
}

impl TupleType {
    /// The channel count this tuple type carries per pixel.
    pub open spec fn spec_depth(&self) -> u16 {
        match self {
            TupleType::BlackAndWhite => 1,
            TupleType::Grayscale => 1,
            TupleType::RGB => 3,
            TupleType::BlackAndWhiteAlpha => 2,
            TupleType::GrayscaleAlpha => 2,
            TupleType::RGBAlpha => 4,
            TupleType::Custom { depth, .. } => *depth,
        }
    }

    /// The name this tuple type carries in the header.
    pub open spec fn spec_name(&self) -> &'static str {
        match self {
            TupleType::BlackAndWhite => "BLACKANDWHITE",
            TupleType::Grayscale => "GRAYSCALE",
            TupleType::RGB => "RGB",
            TupleType::BlackAndWhiteAlpha => "BLACKANDWHITE_ALPHA",
            TupleType::GrayscaleAlpha => "GRAYSCALE_ALPHA",
            TupleType::RGBAlpha => "RGB_ALPHA",
            TupleType::Custom { tuple_type, .. } => *tuple_type,
        }
    }

    /// The channel count per pixel: fixed for the built-in kinds, as given
    /// for a custom kind.
    pub fn get_depth(&self) -> (d: u16)
        ensures
            d == self.spec_depth(),
    {
        match self {
            TupleType::BlackAndWhite => 1,
            TupleType::Grayscale => 1,
            TupleType::RGB => 3,
            TupleType::BlackAndWhiteAlpha => 2,
            TupleType::GrayscaleAlpha => 2,
            TupleType::RGBAlpha => 4,
            TupleType::Custom { depth, .. } => *depth,
        }
    }

    /// The name written after `TUPLTYPE` in the header.
    pub fn get_tuple_type(&self) -> (r: &str)
        ensures
            r == self.spec_name(),
    {
        match self {
            TupleType::BlackAndWhite => "BLACKANDWHITE",
            TupleType::Grayscale => "GRAYSCALE",
            TupleType::RGB => "RGB",
            TupleType::BlackAndWhiteAlpha => "BLACKANDWHITE_ALPHA",
            TupleType::GrayscaleAlpha => "GRAYSCALE_ALPHA",
            TupleType::RGBAlpha => "RGB_ALPHA",
            TupleType::Custom { tuple_type, .. } => *tuple_type,
        }
    }
}

/// type for NetPAM files.
pub struct NetPAM {
    /// image width in pixels.
    pub width: usize,
    /// image height in pixels.
    pub height: usize,
    /// channels per pixel, as the tuple type fixes it.
    pub depth: usize,
    /// the largest representable channel value.
    pub max_val: u16,
    /// the channel layout written in the header.
    pub tuple_type: TupleType,
    /// row-major pixel grid, each pixel `depth` channel values.
    pub pixels: Vec<Vec<Vec<u16>>>,
}

impl NetPAM {
    /// The pixel grid as rows of pixels of channel values.
    pub open spec fn gridv(&self) -> Seq<Seq<Seq<u16>>> {
        Seq::new(
            self.pixels@.len(),
            |r: int| Seq::new(self.pixels@[r]@.len(), |c: int| self.pixels@[r]@[c]@),
        )
    }

    /// The sample rows: each pixel row flattened to its channel values in
    /// order, which is exactly the order they take on the wire.
    pub open spec fn srows(&self) -> Seq<Seq<u16>> {
        Seq::new(self.gridv().len(), |r: int| concat_all(self.gridv()[r]))
    }

    /// The image's structural invariant: positive dimensions, the depth the
    /// tuple type fixes, a rectangular grid of pixels of that depth, every
    /// channel in range.
    pub open spec fn wf(&self) -> bool {
        &&& self.width >= 1
        &&& self.height >= 1
        &&& self.depth >= 1
        &&& self.depth == self.tuple_type.spec_depth()
        &&& self.gridv().len() == self.height
        &&& forall|r: int|
            0 <= r < self.gridv().len() ==> (#[trigger] self.gridv()[r]).len() == self.width
        &&& forall|r: int, c: int|
            0 <= r < self.gridv().len() && 0 <= c < self.width ==> (
            #[trigger] self.gridv()[r][c]).len() == self.depth
        &&& grid3_le(self.gridv(), self.max_val)
    }

    /// The raw encoding: the verbose header block, then the packed
    /// payload.
    pub open spec fn raw_spec(&self) -> Seq<u8> {
        seq![80u8, 55u8, 10u8] + seq![87u8, 73u8, 68u8, 84u8, 72u8, 32u8] + dec_bytes(
            self.width as nat,
        ) + seq![10u8] + seq![72u8, 69u8, 73u8, 71u8, 72u8, 84u8, 32u8] + dec_bytes(
            self.height as nat,
        ) + seq![10u8] + seq![68u8, 69u8, 80u8, 84u8, 72u8, 32u8] + dec_bytes(self.depth as nat)
            + seq![10u8] + seq![77u8, 65u8, 88u8, 86u8, 65u8, 76u8, 32u8] + dec_bytes(
            self.max_val as nat,
        ) + seq![10u8] + seq![84u8, 85u8, 80u8, 76u8, 84u8, 89u8, 80u8, 69u8, 32u8]
            + self.tuple_type.spec_name().spec_bytes() + seq![10u8] + seq![69u8, 78u8, 68u8, 72u8,
            68u8, 82u8, 10u8] + gm_payload(self.srows(), self.max_val)
    }

    /// create a new NetPAM image.
    pub fn new(width: usize, height: usize, max_val: u16, tuple_type: TupleType) -> (img: Self)
        requires
            width >= 1,
            height >= 1,
            tuple_type.spec_depth() >= 1,
        ensures
            img.wf(),
            img.width == width,
            img.height == height,
            img.max_val == max_val,
            img.tuple_type == tuple_type,
            img.depth == tuple_type.spec_depth(),
            img.gridv() == Seq::new(
                height as nat,
                |r: int|
                    Seq::new(
                        width as nat,
                        |c: int| Seq::new(tuple_type.spec_depth() as nat, |k: int| 0u16),
                    ),
            ),
    {
        let depth = tuple_type.get_depth() as usize;
        let pixels = vec![vec![vec![0u16; depth]; width]; height];
        let img = Self { width, height, depth, max_val, tuple_type, pixels };
        proof {
            assert(img.gridv() =~~= Seq::new(
                height as nat,
                |r: int|
                    Seq::new(
                        width as nat,
                        |c: int| Seq::new(img.tuple_type.spec_depth() as nat, |k: int| 0u16),
                    ),
            ));
        }
        img
    }

    /// set a pixels color.
    ///
    /// - x     - x position of pixel. does nothing if not in image.
    /// - y     - y position of pixel. does nothing if not in image.
    /// - color - color of pixel. (rgb|v)a order. 0 is black, max_val is white.
    pub fn set_pixel(&mut self, x: usize, y: usize, color: Vec<u16>)
        requires
            old(self).wf(),
        ensures
            final(self).wf(),
            final(self).width == old(self).width,
            final(self).height == old(self).height,
            final(self).depth == old(self).depth,
            final(self).max_val == old(self).max_val,
            final(self).tuple_type == old(self).tuple_type,
            x < old(self).width && y < old(self).height && color@.len() == old(self).depth
                && px_le(color@, old(self).max_val) ==> final(self).gridv() == old(
                self,
            ).gridv().update(
                y as int,
                old(self).gridv()[y as int].update(x as int, color@),
            ),
            !(x < old(self).width && y < old(self).height && color@.len() == old(self).depth
                && px_le(color@, old(self).max_val)) ==> *final(self) == *old(self),
    {
        if x < self.width && y < self.height && color.len() == self.depth && vec_le(
            &color,
            self.max_val,
        ) {
            proof {
                assert(self.pixels@.len() == self.gridv().len());
                assert(self.pixels@[y as int]@.len() == self.gridv()[y as int].len());
            }
            self.pixels[y][x] = color;
            proof {
                let og = old(self).gridv();
                let ng = self.gridv();
                assert(ng[y as int] =~~= og[y as int].update(x as int, color@));
                assert(ng =~~= og.update(y as int, og[y as int].update(x as int, color@)));
            }
        }
    }

    /// get a pixels color.
    ///
    /// - x     - x position of pixel. does nothing if not in image.
    /// - y     - y position of pixel. does nothing if not in image.
    ///
    /// returns - color of pixel. (rgb|v)a order. 0 is black, max_val is white.
    pub fn get_pixel(&mut self, x: usize, y: usize) -> (r: Option<Vec<u16>>)
        requires
            old(self).wf(),
        ensures
            *final(self) == *old(self),
            x < old(self).width && y < old(self).height ==> (r matches Some(px) && px@ == old(
                self,
            ).gridv()[y as int][x as int]),
            !(x < old(self).width && y < old(self).height) ==> r is None,
    {
        if x < self.width && y < self.height {
            proof {
                assert(self.pixels@.len() == self.gridv().len());
                assert(self.pixels@[y as int]@.len() == self.gridv()[y as int].len());
            }
            return Some(copy_vals(&self.pixels[y][x]));
        }
        None
    }

    /// convert the image to its binary representation.
    ///
    /// returns - binary representation of the image.
    #[verifier::rlimit(80)]
    pub fn to_raw(&self) -> (r: Vec<u8>)
        requires
            self.wf(),
        ensures
            r@ == self.raw_spec(),
    {
        let mut out: Vec<u8> = Vec::new();
        out.push(80);
        out.push(55);
        out.push(10);
        push_header_word(&mut out, 0);
        push_dec(&mut out, self.width as u64);
        out.push(10);
        push_header_word(&mut out, 1);
        push_dec(&mut out, self.height as u64);
        out.push(10);
        push_header_word(&mut out, 2);
        push_dec(&mut out, self.depth as u64);
        out.push(10);
        push_header_word(&mut out, 3);
        push_dec(&mut out, self.max_val as u64);
        out.push(10);
        push_header_word(&mut out, 4);
        let name = self.tuple_type.get_tuple_type();
        push_str_bytes(&mut out, name);
        out.push(10);
        push_header_word(&mut out, 5);
        let ghost head = out@;
        proof {
            assert(head =~= seq![80u8, 55u8, 10u8] + seq![87u8, 73u8, 68u8, 84u8, 72u8, 32u8]
                + dec_bytes(self.width as nat) + seq![10u8] + seq![72u8, 69u8, 73u8, 71u8, 72u8,
                84u8, 32u8] + dec_bytes(self.height as nat) + seq![10u8] + seq![68u8, 69u8, 80u8,
                84u8, 72u8, 32u8] + dec_bytes(self.depth as nat) + seq![10u8] + seq![77u8, 65u8,
                88u8, 86u8, 65u8, 76u8, 32u8] + dec_bytes(self.max_val as nat) + seq![10u8]
                + seq![84u8, 85u8, 80u8, 76u8, 84u8, 89u8, 80u8, 69u8, 32u8]
                + self.tuple_type.spec_name().spec_bytes() + seq![10u8] + seq![69u8, 78u8, 68u8,
                72u8, 68u8, 82u8, 10u8]);
        }
        let ghost g = self.srows();
        let m = self.max_val;
        let h = self.height;
        let w = self.width;
        let d = self.depth;
        let mut r: usize = 0;
        while r < h
            invariant
                self.wf(),
                w == self.width,
                h == self.height,
                d == self.depth,
                m == self.max_val,
                g == self.srows(),
                0 <= r <= h,
                out@ == head + concat_all(Seq::new(r as nat, |i: int| row_bytes(g[i], m))),
            decreases h - r,
        {
            let ghost mid = out@;
            let row = &self.pixels[r];
            let ghost rowp = self.gridv()[r as int];
            let ghost rowflat = g[r as int];
            proof {
                assert(rowflat == concat_all(rowp));
                assert(forall|c: int|
                    0 <= c < rowp.len() ==> (#[trigger] rowp[c]).len() == d);
                lemma_concat_all_len(rowp, d as nat);
                assert(rowflat.len() == (w as int) * (d as int)) by (nonlinear_arith)
                    requires
                        rowflat.len() == rowp.len() * (d as nat),
                        rowp.len() == w,
                ;
            }
            let mut c: usize = 0;
            while c < w
                invariant
                    self.wf(),
                    w == self.width,
                    d == self.depth,
                    r < h == self.height,
                    m == self.max_val,
                    rowp == self.gridv()[r as int],
                    rowflat == concat_all(rowp),
                    rowflat.len() == (w as int) * (d as int),
                    row@ == self.pixels@[r as int]@,
                    0 <= c <= w,
                    out@ == mid + concat_all(
                        Seq::new(
                            ((c as int) * (d as int)) as nat,
                            |j: int| sample_bytes(rowflat[j], m),
                        ),
                    ),
                decreases w - c,
            {
                let px = &row[c];
                proof {
                    assert(px@ == rowp[c as int]);
                    assert(0 <= (c as int) * (d as int) && (c as int) * (d as int) + (d as int)
                        <= rowflat.len()) by (nonlinear_arith)
                        requires
                            0 <= c < w,
                            d >= 1,
                            rowflat.len() == (w as int) * (d as int),
                    ;
                }
                let mut k: usize = 0;
                while k < d
                    invariant
                        rowp == self.gridv()[r as int],
                        rowflat == concat_all(rowp),
                        rowflat.len() == (w as int) * (d as int),
                        forall|cx: int|
                            0 <= cx < rowp.len() ==> (#[trigger] rowp[cx]).len() == d,
                        c < w == rowp.len(),
                        px@ == rowp[c as int],
                        m == self.max_val,
                        0 <= k <= d,
                        (c as int) * (d as int) + (d as int) <= rowflat.len(),
                        out@ == mid + concat_all(
                            Seq::new(
                                ((c as int) * (d as int) + k as int) as nat,
                                |j: int| sample_bytes(rowflat[j], m),
                            ),
                        ),
                    decreases d - k,
                {
                    push_sample(&mut out, px[k], m);
                    proof {
                        let kk = (c as int) * (d as int) + k as int;
                        lemma_concat_all_index(rowp, d as nat, c as int, k as int);
                        assert(rowflat[kk] == rowp[c as int][k as int]);
                        let pre = Seq::new(kk as nat, |j: int| sample_bytes(rowflat[j], m));
                        let cur = Seq::new((kk + 1) as nat, |j: int| sample_bytes(rowflat[j], m));
                        assert(cur.drop_last() =~= pre);
                        assert(cur.last() == sample_bytes(rowflat[kk], m));
                        lemma_concat_all_push(pre, sample_bytes(rowflat[kk], m));
                        assert(out@ =~= mid + concat_all(cur));
                    }
                    k = k + 1;
                }
                proof {
                    assert((c as int) * (d as int) + (d as int) == (c as int + 1) * (d as int))
                        by (nonlinear_arith);
                }
                c = c + 1;
            }
            proof {
                assert(Seq::new(((w as int) * (d as int)) as nat, |j: int| sample_bytes(
                    rowflat[j],
                    m,
                )) =~= Seq::new(rowflat.len(), |j: int| sample_bytes(rowflat[j], m)));
                assert(out@ == mid + row_bytes(rowflat, m));
                let pre = Seq::new(r as nat, |i: int| row_bytes(g[i], m));
                let cur = Seq::new((r + 1) as nat, |i: int| row_bytes(g[i], m));
                assert(cur.drop_last() =~= pre);
                assert(cur.last() == row_bytes(g[r as int], m));
                lemma_concat_all_push(pre, row_bytes(g[r as int], m));
                assert(out@ =~= head + concat_all(cur));
            }
            r = r + 1;
        }
        proof {
            assert(Seq::new(h as nat, |i: int| row_bytes(g[i], m)) =~= Seq::new(
                g.len(),
                |i: int| row_bytes(g[i], m),
            ));
            assert(out@ =~= self.raw_spec());
        }
        out
    }
}

/// Whether every value of the vector is within the format's range.
fn vec_le(v: &Vec<u16>, m: u16) -> (r: bool)
    ensures
        r == px_le(v@, m),
{
    let mut i: usize = 0;
    while i < v.len()
        invariant
            0 <= i <= v@.len(),
            forall|j: int| 0 <= j < i ==> #[trigger] v@[j] <= m,
        decreases v@.len() - i,
    {
        if v[i] > m {
            return false;
        }
        i = i + 1;
    }
    true
}

/// A fresh copy of a vector of channel values.
fn copy_vals(v: &Vec<u16>) -> (r: Vec<u16>)
    ensures
        r@ == v@,
{
    let mut r: Vec<u16> = Vec::new();
    let mut i: usize = 0;
    while i < v.len()
        invariant
            0 <= i <= v@.len(),
            r@ == v@.subrange(0, i as int),
        decreases v@.len() - i,
    {
        r.push(v[i]);
        proof {
            assert(r@ =~= v@.subrange(0, i + 1));
        }
        i = i + 1;
    }
    proof {
        assert(v@.subrange(0, v@.len() as int) =~= v@);
    }
    r
}

/// Appends one keyword of the verbose header, with its trailing space, or
/// the closing line.
fn push_header_word(out: &mut Vec<u8>, which: u8)
    requires
        which <= 5,
    ensures
        which == 0 ==> final(out)@ == old(out)@ + seq![87u8, 73u8, 68u8, 84u8, 72u8, 32u8],
        which == 1 ==> final(out)@ == old(out)@ + seq![72u8, 69u8, 73u8, 71u8, 72u8, 84u8, 32u8],
        which == 2 ==> final(out)@ == old(out)@ + seq![68u8, 69u8, 80u8, 84u8, 72u8, 32u8],
        which == 3 ==> final(out)@ == old(out)@ + seq![77u8, 65u8, 88u8, 86u8, 65u8, 76u8, 32u8],
        which == 4 ==> final(out)@ == old(out)@ + seq![84u8, 85u8, 80u8, 76u8, 84u8, 89u8, 80u8,
            69u8, 32u8],
        which == 5 ==> final(out)@ == old(out)@ + seq![69u8, 78u8, 68u8, 72u8, 68u8, 82u8, 10u8],
{
    if which == 0 {
        out.push(87);
        out.push(73);
        out.push(68);
        out.push(84);
        out.push(72);
        out.push(32);
        proof {
            assert(out@ =~= old(out)@ + seq![87u8, 73u8, 68u8, 84u8, 72u8, 32u8]);
        }
    } else if which == 1 {
        out.push(72);
        out.push(69);
        out.push(73);
        out.push(71);
        out.push(72);
        out.push(84);
        out.push(32);
        proof {
            assert(out@ =~= old(out)@ + seq![72u8, 69u8, 73u8, 71u8, 72u8, 84u8, 32u8]);
        }
    } else if which == 2 {
        out.push(68);
        out.push(69);
        out.push(80);
        out.push(84);
        out.push(72);
        out.push(32);
        proof {
            assert(out@ =~= old(out)@ + seq![68u8, 69u8, 80u8, 84u8, 72u8, 32u8]);
        }
    } else if which == 3 {
        out.push(77);
        out.push(65);
        out.push(88);
        out.push(86);
        out.push(65);
        out.push(76);
        out.push(32);
        proof {
            assert(out@ =~= old(out)@ + seq![77u8, 65u8, 88u8, 86u8, 65u8, 76u8, 32u8]);
        }
    } else if which == 4 {
        out.push(84);
        out.push(85);
        out.push(80);
        out.push(76);
        out.push(84);
        out.push(89);
        out.push(80);
        out.push(69);
        out.push(32);
        proof {
            assert(out@ =~= old(out)@ + seq![84u8, 85u8, 80u8, 76u8, 84u8, 89u8, 80u8, 69u8,
                32u8]);
        }
    } else {
        out.push(69);
        out.push(78);
        out.push(68);
        out.push(72);
        out.push(68);
        out.push(82);
        out.push(10);
        proof {
            assert(out@ =~= old(out)@ + seq![69u8, 78u8, 68u8, 72u8, 68u8, 82u8, 10u8]);
        }
    }
}

/// Appends the UTF-8 bytes of a string.
fn push_str_bytes(out: &mut Vec<u8>, s: &str)
    ensures
        final(out)@ == old(out)@ + s.spec_bytes(),
{
    let b = s.as_bytes();
    let n = b.len();
    let mut i: usize = 0;
    while i < n
        invariant
            n == b@.len(),
            b@ == s.spec_bytes(),
            0 <= i <= n,
            out@ == old(out)@ + b@.subrange(0, i as int),
        decreases n - i,
    {
        let x = *vstd::slice::slice_index_get(b, i);
        out.push(x);
        proof {
            assert(out@ =~= old(out)@ + b@.subrange(0, i + 1));
        }
        i = i + 1;
    }
    proof {
        assert(b@.subrange(0, n as int) =~= b@);
    }
}

} // verus!
