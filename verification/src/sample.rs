//! Sample codec: lossless round trip between one channel value and its two
//! wire forms — the ASCII field and the packed binary bytes, including the
//! 1-bit packing used by raw bitmaps.
use vstd::prelude::*;
use crate::numeral::{dec_chars, dec_len, dec_len16, lemma_dec_chars_len, lemma_dec_len_mono,
    push_dec_str};
use crate::seqs::{concat_all, lemma_concat_all_len, lemma_concat_all_index};
use crate::text::push_char;

verus! {

/// The binary form of one channel value: two bytes big-endian when the
/// format's maximum value needs more than one byte, else a single byte.
pub open spec fn sample_bytes(v: u16, m: u16) -> Seq<u8> {
    if m > 255 {
        seq![(v / 256) as u8, (v % 256) as u8]
    } else {
        seq![v as u8]
    }
}

/// How many bytes one channel value occupies on the wire.
pub open spec fn sample_width(m: u16) -> nat {
    if m > 255 {
        2
    } else {
        1
    }
}

/// The value two big-endian bytes stand for.
pub open spec fn merge_sample(hi: u8, lo: u8) -> u16 {
    (hi * 256 + lo) as u16
}

/// Splitting a value into big-endian bytes and merging them gives the value
/// back.
pub proof fn lemma_sample_split_merge(v: u16)
    ensures
        merge_sample((v / 256) as u8, (v % 256) as u8) == v,
{
    vstd::arithmetic::div_mod::lemma_fundamental_div_mod(v as int, 256);
}

/// Appends the binary form of one channel value.
pub fn push_sample(out: &mut Vec<u8>, v: u16, m: u16)
    ensures
        final(out)@ == old(out)@ + sample_bytes(v, m),
{
    if m > 255 {
        out.push((v / 256) as u8);
        out.push((v % 256) as u8);
    } else {
        out.push(v as u8);
    }
    proof {
        assert(out@ =~= old(out)@ + sample_bytes(v, m));
    }
}

/// Spaces used to right-align an ASCII sample field.
pub open spec fn spaces(n: nat) -> Seq<char> {
    Seq::new(n, |i: int| ' ')
}

/// One ASCII sample field: the decimal digits of the value, right-aligned
/// with spaces to the field width.
pub open spec fn field_chars(v: u16, width: nat) -> Seq<char> {
    spaces(if dec_len(v as nat) >= width {
        0
    } else {
        (width - dec_len(v as nat)) as nat
    }) + dec_chars(v as nat)
}

/// Every ASCII sample field is exactly as wide as the decimal width of the
/// format's maximum value: an in-range value never overflows its field.
pub proof fn lemma_field_width(v: u16, m: u16)
    requires
        v <= m,
    ensures
        field_chars(v, dec_len(m as nat)).len() == dec_len(m as nat),
{
    lemma_dec_len_mono(v as nat, m as nat);
    lemma_dec_chars_len(v as nat);
}

/// Appends one ASCII sample field.
pub fn push_field(out: &mut String, v: u16, width: usize)
    ensures
        final(out)@ == old(out)@ + field_chars(v, width as nat),
{
    let dl = dec_len16(v);
    let mut k = dl;
    while k < width
        invariant
            dl == dec_len(v as nat),
            dl <= k,
            k <= width || k == dl,
            out@ == old(out)@ + spaces((k - dl) as nat),
        decreases width - k,
    {
        push_char(out, ' ');
        k = k + 1;
        proof {
            assert(out@ =~= old(out)@ + spaces((k - dl) as nat));
        }
    }
    push_dec_str(out, v as u64);
    proof {
        lemma_dec_chars_len(v as nat);
        assert(out@ =~= old(out)@ + field_chars(v, width as nat));
    }
}

/// The binary bytes of one row of samples, in order.
pub open spec fn row_bytes(row: Seq<u16>, m: u16) -> Seq<u8> {
    concat_all(Seq::new(row.len(), |c: int| sample_bytes(row[c], m)))
}

/// The binary payload of a whole sample grid: rows in order, each row its
/// samples in order.
pub open spec fn gm_payload(g: Seq<Seq<u16>>, m: u16) -> Seq<u8> {
    concat_all(Seq::new(g.len(), |r: int| row_bytes(g[r], m)))
}

/// The sample a binary payload holds at byte position `pos`: two big-endian
/// bytes when the maximum value needs them, else one byte.
pub open spec fn read_sample(s: Seq<u8>, pos: int, m: u16) -> u16 {
    if m > 255 {
        merge_sample(s[pos], s[pos + 1])
    } else {
        s[pos] as u16
    }
}

/// Every sample of the grid is within the format's range.
pub open spec fn grid_le(g: Seq<Seq<u16>>, m: u16) -> bool {
    forall|r: int, c: int|
        0 <= r < g.len() && 0 <= c < g[r].len() ==> #[trigger] g[r][c] <= m
}

/// How indexing distributes over a grid's binary payload: with every row
/// `w` samples wide, byte `k` of sample `(r, c)` sits at
/// `(r * w + c) * sample_width + k`.
pub proof fn lemma_gm_payload_index(g: Seq<Seq<u16>>, m: u16, w: nat, r: int, c: int, k: int)
    requires
        forall|i: int| 0 <= i < g.len() ==> (#[trigger] g[i]).len() == w,
        0 <= r < g.len(),
        0 <= c < w,
        0 <= k < sample_width(m),
    ensures
        gm_payload(g, m).len() == g.len() * (w * sample_width(m)),
        gm_payload(g, m)[(r * (w as int) + c) * (sample_width(m) as int) + k] == sample_bytes(
            g[r][c],
            m,
        )[k],
{
    let sw = sample_width(m);
    let rows = Seq::new(g.len(), |i: int| row_bytes(g[i], m));
    assert forall|i: int| 0 <= i < rows.len() implies (#[trigger] rows[i]).len() == w * sw by {
        let cells = Seq::new(g[i].len(), |j: int| sample_bytes(g[i][j], m));
        assert(forall|j: int| 0 <= j < cells.len() ==> (#[trigger] cells[j]).len() == sw);
        lemma_concat_all_len(cells, sw);
    }
    lemma_concat_all_len(rows, w * sw);
    let cells = Seq::new(g[r].len(), |j: int| sample_bytes(g[r][j], m));
    assert(forall|j: int| 0 <= j < cells.len() ==> (#[trigger] cells[j]).len() == sw);
    lemma_concat_all_index(cells, sw, c, k);
    assert(row_bytes(g[r], m)[c * (sw as int) + k] == sample_bytes(g[r][c], m)[k]);
    assert(0 <= c * (sw as int) + k < w * sw) by (nonlinear_arith)
        requires
            0 <= c < w,
            0 <= k < sw,
    ;
    lemma_concat_all_index(rows, w * sw, r, c * (sw as int) + k);
    assert(gm_payload(g, m)[r * ((w * sw) as int) + (c * (sw as int) + k)] == sample_bytes(
        g[r][c],
        m,
    )[k]);
    assert(r * ((w * sw) as int) + (c * (sw as int) + k) == (r * (w as int) + c) * (sw as int) + k)
        by (nonlinear_arith);
}

/// One row of ASCII sample fields, joined by single spaces.
pub open spec fn row_fields_ascii(row: Seq<u16>, fw: nat) -> Seq<char>
    decreases row.len(),
{
    if row.len() == 0 {
        Seq::empty()
    } else if row.len() == 1 {
        field_chars(row[0], fw)
    } else {
        row_fields_ascii(row.drop_last(), fw) + seq![' '] + field_chars(row.last(), fw)
    }
}

/// All rows of ASCII sample fields, joined by newlines.
pub open spec fn grid_fields_ascii(g: Seq<Seq<u16>>, fw: nat) -> Seq<char>
    decreases g.len(),
{
    if g.len() == 0 {
        Seq::empty()
    } else if g.len() == 1 {
        row_fields_ascii(g[0], fw)
    } else {
        grid_fields_ascii(g.drop_last(), fw) + seq!['\n'] + row_fields_ascii(g.last(), fw)
    }
}

/// 1 when the row has a black pixel at `i`, else 0; positions past the end
/// of the row read as 0, which models the zero padding of a row's final
/// byte.
pub open spec fn bit_at(row: Seq<bool>, i: int) -> u8 {
    if 0 <= i < row.len() && row[i] {
        1
    } else {
        0
    }
}

/// One packed byte of a bitmap row: eight consecutive pixels, first pixel
/// in the most significant bit, missing pixels padded with zero bits.
pub open spec fn pack_byte(row: Seq<bool>, j: int) -> u8 {
    (128 * bit_at(row, 8 * j) + 64 * bit_at(row, 8 * j + 1) + 32 * bit_at(row, 8 * j + 2) + 16
        * bit_at(row, 8 * j + 3) + 8 * bit_at(row, 8 * j + 4) + 4 * bit_at(row, 8 * j + 5) + 2
        * bit_at(row, 8 * j + 6) + bit_at(row, 8 * j + 7)) as u8
}

/// How many packed bytes a bitmap row of width `w` occupies: each row
/// starts a fresh byte.
pub open spec fn bytes_per_row(w: nat) -> nat {
    (w + 7) / 8
}

/// The packed bytes of one bitmap row.
pub open spec fn row_packed(row: Seq<bool>) -> Seq<u8> {
    Seq::new(bytes_per_row(row.len()), |j: int| pack_byte(row, j))
}

/// Bytes per packed bitmap row, computed without overflow.
pub fn bytes_per_row_exec(w: usize) -> (b: usize)
    ensures
        b as nat == bytes_per_row(w as nat),
{
    let q = w / 8;
    let rem = w % 8;
    proof {
        vstd::arithmetic::div_mod::lemma_fundamental_div_mod(w as int, 8);
        if rem == 0 {
            vstd::arithmetic::div_mod::lemma_fundamental_div_mod_converse(
                w as int + 7,
                8,
                q as int,
                7,
            );
        } else {
            vstd::arithmetic::div_mod::lemma_fundamental_div_mod_converse(
                w as int + 7,
                8,
                q as int + 1,
                rem as int - 1,
            );
        }
    }
    if rem == 0 {
        q
    } else {
        q + 1
    }
}

/// Packs the eight pixels starting at position `8 j` of a bitmap row into
/// one byte, most significant bit first, padding with zero bits.
#[verifier::rlimit(50)]
pub fn pack_row_byte(row: &Vec<bool>, j: usize) -> (b: u8)
    requires
        (j as int) < bytes_per_row(row@.len() as nat),
    ensures
        b == pack_byte(row@, j as int),
{
    let n = row.len();
    proof {
        vstd::arithmetic::div_mod::lemma_fundamental_div_mod(n as int + 7, 8);
        assert(8 * (j as int) <= n - 1) by (nonlinear_arith)
            requires
                (j as int) < (n as int + 7) / 8,
                n as int + 7 == 8 * ((n as int + 7) / 8) + (n as int + 7) % 8,
                0 <= (n as int + 7) % 8 < 8,
        ;
    }
    let base = j * 8;
    let b0: u8 = if 0 < n - base && row[base] {
        1
    } else {
        0
    };
    let b1: u8 = if 1 < n - base && row[base + 1] {
        1
    } else {
        0
    };
    let b2: u8 = if 2 < n - base && row[base + 2] {
        1
    } else {
        0
    };
    let b3: u8 = if 3 < n - base && row[base + 3] {
        1
    } else {
        0
    };
    let b4: u8 = if 4 < n - base && row[base + 4] {
        1
    } else {
        0
    };
    let b5: u8 = if 5 < n - base && row[base + 5] {
        1
    } else {
        0
    };
    let b6: u8 = if 6 < n - base && row[base + 6] {
        1
    } else {
        0
    };
    let b7: u8 = if 7 < n - base && row[base + 7] {
        1
    } else {
        0
    };
    proof {
        assert(b0 == bit_at(row@, 8 * (j as int)));
        assert(b1 == bit_at(row@, 8 * (j as int) + 1));
        assert(b2 == bit_at(row@, 8 * (j as int) + 2));
        assert(b3 == bit_at(row@, 8 * (j as int) + 3));
        assert(b4 == bit_at(row@, 8 * (j as int) + 4));
        assert(b5 == bit_at(row@, 8 * (j as int) + 5));
        assert(b6 == bit_at(row@, 8 * (j as int) + 6));
        assert(b7 == bit_at(row@, 8 * (j as int) + 7));
    }
    let b: u8 = 128 * b0 + 64 * b1 + 32 * b2 + 16 * b3 + 8 * b4 + 4 * b5 + 2 * b6 + b7;
    proof {
        assert(b == pack_byte(row@, j as int));
    }
    b
}

/// The weight of bit `k`, counting from the most significant bit of a byte.
pub open spec fn msb_weight(k: int) -> u8 {
    if k == 0 {
        128
    } else if k == 1 {
        64
    } else if k == 2 {
        32
    } else if k == 3 {
        16
    } else if k == 4 {
        8
    } else if k == 5 {
        4
    } else if k == 6 {
        2
    } else {
        1
    }
}

/// Whether bit `k` (from the most significant end) of a byte is set.
pub open spec fn bit_msb(b: u8, k: int) -> bool {
    (b / msb_weight(k)) % 2 == 1
}

/// Reads bit `k` (from the most significant end) of a byte.
pub fn get_bit(b: u8, k: usize) -> (r: bool)
    requires
        k < 8,
    ensures
        r == bit_msb(b, k as int),
{
    let w: u8 = if k == 0 {
        128
    } else if k == 1 {
        64
    } else if k == 2 {
        32
    } else if k == 3 {
        16
    } else if k == 4 {
        8
    } else if k == 5 {
        4
    } else if k == 6 {
        2
    } else {
        1
    };
    (b / w) % 2 == 1
}

/// Packing eight pixels into a byte and reading one bit back gives that
/// pixel: bit `k` of the packed byte is pixel `8 j + k`, and padding bits
/// read as white.
pub proof fn lemma_pack_extract(row: Seq<bool>, j: int, k: int)
    requires
        0 <= j,
        0 <= k < 8,
    ensures
        bit_msb(pack_byte(row, j), k) == (bit_at(row, 8 * j + k) == 1),
{
    let a0 = bit_at(row, 8 * j);
    let a1 = bit_at(row, 8 * j + 1);
    let a2 = bit_at(row, 8 * j + 2);
    let a3 = bit_at(row, 8 * j + 3);
    let a4 = bit_at(row, 8 * j + 4);
    let a5 = bit_at(row, 8 * j + 5);
    let a6 = bit_at(row, 8 * j + 6);
    let a7 = bit_at(row, 8 * j + 7);
    let b = pack_byte(row, j);
    assert(b == 128 * a0 + 64 * a1 + 32 * a2 + 16 * a3 + 8 * a4 + 4 * a5 + 2 * a6 + a7);
    assert((((b / 128) % 2 == 1) <==> a0 == 1) && (((b / 64) % 2 == 1) <==> a1 == 1) && (((b / 32)
        % 2 == 1) <==> a2 == 1) && (((b / 16) % 2 == 1) <==> a3 == 1) && (((b / 8) % 2 == 1) <==> a4
        == 1) && (((b / 4) % 2 == 1) <==> a5 == 1) && (((b / 2) % 2 == 1) <==> a6 == 1) && (((b / 1)
        % 2 == 1) <==> a7 == 1)) by (bit_vector)
        requires
            b == 128 * a0 + 64 * a1 + 32 * a2 + 16 * a3 + 8 * a4 + 4 * a5 + 2 * a6 + a7,
            a0 <= 1 && a1 <= 1 && a2 <= 1 && a3 <= 1 && a4 <= 1 && a5 <= 1 && a6 <= 1 && a7 <= 1,
    ;
}

/// In the final packed byte of a bitmap row whose width is not a multiple
/// of eight, every bit position past the row's last pixel is zero.
pub proof fn lemma_pack_padding(row: Seq<bool>, j: int, k: int)
    requires
        0 <= j,
        0 <= k < 8,
        8 * j + k >= row.len(),
    ensures
        !bit_msb(pack_byte(row, j), k),
{
    lemma_pack_extract(row, j, k);
}

} // verus!
