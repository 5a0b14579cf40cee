//! GX texture codecs.
//!
//! Every decoder returns RGBA8 bytes (R, G, B, A per pixel, row-major).
//! GX stores texels in tiles: a texture is cut into `tw × th` tiles, laid
//! out left to right, top to bottom, each tile's texels row-major.  The
//! width is padded to a whole number of tiles, and so is the height.
//!
//! Channel conventions: the 5/6/5 and 5/5/5 fields are read high field =
//! "b", low field = "r", the order HSD tools use; encoders write the same
//! order, so encode then decode keeps every representable colour.

use crate::error::{HsdError, Result};
use crate::gx::{GxTexFmt, GxTlutFmt};
use vstd::arithmetic::div_mod::{lemma_fundamental_div_mod, lemma_fundamental_div_mod_converse};
use vstd::prelude::*;

verus! {

// ---------------------------------------------------------------------
// Tile geometry
// ---------------------------------------------------------------------

/// `v` rounded up to a multiple of `a`.
pub open spec fn pad_to(v: int, a: int) -> int {
    if v % a == 0 {
        v
    } else {
        v + (a - v % a)
    }
}

/// Position in the tiled stream of the texel at `(x, y)`, for a padded
/// width `pw` and `tw × th` tiles.
pub open spec fn tiled(x: int, y: int, pw: int, tw: int, th: int) -> int {
    ((y / th) * (pw / tw) + x / tw) * (tw * th) + (y % th) * tw + x % tw
}

/// Column of the texel at position `t` of the tiled stream.
pub open spec fn untile_x(t: int, pw: int, tw: int, th: int) -> int {
    ((t / (tw * th)) % (pw / tw)) * tw + (t % (tw * th)) % tw
}

/// Row of the texel at position `t` of the tiled stream.
pub open spec fn untile_y(t: int, pw: int, tw: int, th: int) -> int {
    ((t / (tw * th)) / (pw / tw)) * th + (t % (tw * th)) / tw
}

pub proof fn lemma_pad_to(v: int, a: int)
    requires
        v >= 0,
        a > 0,
    ensures
        pad_to(v, a) >= v,
        pad_to(v, a) % a == 0,
        pad_to(v, a) < v + a,
        v > 0 ==> pad_to(v, a) > 0,
{
    lemma_fundamental_div_mod(v, a);
    if v % a != 0 {
        let q = v / a;
        assert(v + (a - v % a) == (q + 1) * a) by (nonlinear_arith)
            requires
                v == a * q + v % a,
        ;
        lemma_fundamental_div_mod_converse(v + (a - v % a), a, q + 1, 0);
    }
}

/// Untiling the position of an in-grid texel gives the texel back, and the
/// position lies inside the padded grid.
pub proof fn lemma_untile_tiled(x: int, y: int, pw: int, ph: int, tw: int, th: int)
    requires
        tw > 0,
        th > 0,
        pw % tw == 0,
        ph % th == 0,
        0 <= x < pw,
        0 <= y < ph,
    ensures
        untile_x(tiled(x, y, pw, tw, th), pw, tw, th) == x,
        untile_y(tiled(x, y, pw, tw, th), pw, tw, th) == y,
        0 <= tiled(x, y, pw, tw, th) < pw * ph,
{
    let c = pw / tw;
    let bx = x / tw;
    let by = y / th;
    let rx = x % tw;
    let ry = y % th;
    let tt = tw * th;
    let r = ry * tw + rx;
    let k = by * c + bx;
    let t = tiled(x, y, pw, tw, th);
    lemma_fundamental_div_mod(x, tw);
    lemma_fundamental_div_mod(y, th);
    lemma_fundamental_div_mod(pw, tw);
    lemma_fundamental_div_mod(ph, th);
    assert(x == bx * tw + rx) by (nonlinear_arith)
        requires
            x == tw * bx + rx,
    ;
    assert(y == by * th + ry) by (nonlinear_arith)
        requires
            y == th * by + ry,
    ;
    assert(pw == c * tw) by (nonlinear_arith)
        requires
            pw == tw * c + 0,
    ;
    assert(ph == (ph / th) * th) by (nonlinear_arith)
        requires
            ph == th * (ph / th) + 0,
    ;
    assert(0 <= r < tt) by (nonlinear_arith)
        requires
            r == ry * tw + rx,
            0 <= rx < tw,
            0 <= ry < th,
            tt == tw * th,
    ;
    assert(0 <= bx < c) by (nonlinear_arith)
        requires
            x == bx * tw + rx,
            0 <= rx < tw,
            0 <= x < pw,
            pw == c * tw,
            tw > 0,
    ;
    assert(0 <= by < ph / th) by (nonlinear_arith)
        requires
            y == by * th + ry,
            0 <= ry < th,
            0 <= y < ph,
            ph == (ph / th) * th,
            th > 0,
    ;
    assert(t == k * tt + r);
    assert(k >= 0) by (nonlinear_arith)
        requires
            k == by * c + bx,
            by >= 0,
            c >= 0,
            bx >= 0,
    ;
    lemma_fundamental_div_mod_converse(t, tt, k, r);
    lemma_fundamental_div_mod_converse(k, c, by, bx);
    lemma_fundamental_div_mod_converse(r, tw, ry, rx);
    assert(0 <= t < pw * ph) by (nonlinear_arith)
        requires
            t == k * tt + r,
            k == by * c + bx,
            0 <= by < ph / th,
            0 <= bx < c,
            0 <= r < tt,
            tt == tw * th,
            pw == c * tw,
            ph == (ph / th) * th,
            k >= 0,
    ;
}

// ---------------------------------------------------------------------
// Sizes
// ---------------------------------------------------------------------

/// Bytes of a `format` texture of `width × height`: the width is padded
/// to a multiple of 4, the height is not.
pub open spec fn image_size_spec(format: GxTexFmt, width: u32, height: u32) -> int {
    let size = pad_to(width as int, 4) * height;
    match format {
        GxTexFmt::CI4 | GxTexFmt::I4 | GxTexFmt::CMP => size / 2,
        GxTexFmt::IA4 | GxTexFmt::I8 | GxTexFmt::CI14X2 | GxTexFmt::CI8 => size,
        GxTexFmt::IA8 | GxTexFmt::RGB565 | GxTexFmt::RGB5A3 => size * 2,
        GxTexFmt::RGBA8 => size * 4,
        GxTexFmt::Unknown(_) => size,
    }
}

/// Aligned size in bytes of a `format` texture of `width × height`.
pub fn image_size(format: GxTexFmt, width: u32, height: u32) -> (n: usize)
    requires
        width <= u32::MAX - 3,
        pad_to(width as int, 4) * height * 4 <= usize::MAX,
    ensures
        n == image_size_spec(format, width, height),
{
    let w: u32 = if width % 4 == 0 {
        width
    } else {
        width + (4 - width % 4)
    };
    proof {
        assert(w as int * height as int >= 0) by (nonlinear_arith);
        assert(w as int * height as int * 4 == pad_to(width as int, 4) * height * 4);
    }
    let size = (w as usize) * (height as usize);
    match format {
        GxTexFmt::CI4 | GxTexFmt::I4 | GxTexFmt::CMP => size / 2,
        GxTexFmt::IA4 | GxTexFmt::I8 | GxTexFmt::CI14X2 | GxTexFmt::CI8 => size,
        GxTexFmt::IA8 | GxTexFmt::RGB565 | GxTexFmt::RGB5A3 => size * 2,
        GxTexFmt::RGBA8 => size * 4,
        GxTexFmt::Unknown(_) => size,
    }
}

// ---------------------------------------------------------------------
// Texel values
// ---------------------------------------------------------------------

/// An `n`-level channel value scaled to 8 bits, rounding down.
pub open spec fn scale(v: int, levels: int) -> u8 {
    (v * 255 / levels) as u8
}

/// The big-endian `u16` at `s[i..i+2]`.
pub open spec fn be16_at(s: Seq<u8>, i: int) -> u16 {
    (s[i] as int * 256 + s[i + 1] as int) as u16
}

/// RGBA of an RGB5A3 texel: top bit set is 5/5/5 opaque, clear is 3-bit
/// alpha and 4/4/4 colour.
pub open spec fn rgb5a3_px(p16: u16) -> Seq<u8> {
    let p = p16 as int;
    if p >= 0x8000 {
        seq![scale(p % 32, 31), scale((p / 32) % 32, 31), scale((p / 1024) % 32, 31), 255u8]
    } else {
        seq![
            scale(p % 16, 15),
            scale((p / 16) % 16, 15),
            scale((p / 256) % 16, 15),
            scale((p / 4096) % 8, 7),
        ]
    }
}

/// RGBA of an RGB565 texel, each field shifted to the top of its byte.
pub open spec fn rgb565_px(p: u16) -> Seq<u8> {
    seq![((p % 32) * 8) as u8, (((p / 32) % 64) * 4) as u8, (((p / 2048) % 32) * 8) as u8, 255u8]
}

/// RGBA of an IA8 texel: intensity low byte, alpha high byte.
pub open spec fn ia8_px(p: u16) -> Seq<u8> {
    seq![(p % 256) as u8, (p % 256) as u8, (p % 256) as u8, (p / 256) as u8]
}

/// RGBA of a palette entry in `fmt`.
pub open spec fn tlut_px(fmt: GxTlutFmt, p: u16) -> Seq<u8> {
    match fmt {
        GxTlutFmt::IA8 => ia8_px(p),
        GxTlutFmt::RGB565 => rgb565_px(p),
        GxTlutFmt::RGB5A3 => rgb5a3_px(p),
        GxTlutFmt::Unknown(_) => seq![0u8, 0u8, 0u8, 0u8],
    }
}

fn decode_rgb5a3(p: u16) -> (c: [u8; 4])
    ensures
        c@ == rgb5a3_px(p),
{
    if p >= 0x8000 {
        [
            ((p % 32) as u32 * 255 / 31) as u8,
            (((p / 32) % 32) as u32 * 255 / 31) as u8,
            (((p / 1024) % 32) as u32 * 255 / 31) as u8,
            255,
        ]
    } else {
        [
            ((p % 16) as u32 * 255 / 15) as u8,
            (((p / 16) % 16) as u32 * 255 / 15) as u8,
            (((p / 256) % 16) as u32 * 255 / 15) as u8,
            (((p / 4096) % 8) as u32 * 255 / 7) as u8,
        ]
    }
}

fn decode_rgb565(p: u16) -> (c: [u8; 4])
    ensures
        c@ == rgb565_px(p),
{
    [((p % 32) * 8) as u8, (((p / 32) % 64) * 4) as u8, (((p / 2048) % 32) * 8) as u8, 255]
}

fn decode_ia8(p: u16) -> (c: [u8; 4])
    ensures
        c@ == ia8_px(p),
{
    let i = (p % 256) as u8;
    [i, i, i, (p / 256) as u8]
}

fn read_be16(s: &[u8], i: usize) -> (v: u16)
    requires
        i + 1 < s@.len(),
    ensures
        v == be16_at(s@, i as int),
{
    (s[i] as u16) * 256 + s[i + 1] as u16
}

/// Entry `i` of the RGBA palette `pal` (4 bytes each); black transparent
/// past its end.
pub open spec fn pal_entry(pal: Seq<u8>, i: int) -> Seq<u8> {
    if 4 * i + 4 <= pal.len() {
        pal.subrange(4 * i, 4 * i + 4)
    } else {
        seq![0u8, 0u8, 0u8, 0u8]
    }
}

fn copy_pal(pal: &[u8], idx: usize) -> (c: [u8; 4])
    ensures
        c@ == pal_entry(pal@, idx as int),
{
    let n = pal.len();
    proof {
        assert(4 * idx + 4 <= n <==> idx < n / 4) by (nonlinear_arith)
            requires
                idx >= 0,
                n >= 0,
        ;
    }
    if idx >= n / 4 {
        return [0, 0, 0, 0];
    }
    let p = idx * 4;
    let c = [pal[p], pal[p + 1], pal[p + 2], pal[p + 3]];
    proof {
        assert(c@ =~= pal@.subrange(4 * idx, 4 * idx + 4));
    }
    c
}

/// RGBA8 bytes of a palette held as `fmt` entries, 2 bytes each.
pub open spec fn palette_rgba_spec(fmt: GxTlutFmt, data: Seq<u8>) -> Seq<u8> {
    Seq::new(4 * (data.len() / 2), |k: int| tlut_px(fmt, be16_at(data, 2 * (k / 4)))[k % 4])
}

/// Decode a palette into RGBA8 bytes, 4 per entry; the entry count is
/// half the byte count.
pub fn palette_to_rgba(format: GxTlutFmt, data: &[u8]) -> (out: Vec<u8>)
    ensures
        out@ == palette_rgba_spec(format, data@),
{
    let n = data.len();
    let count = n / 2;
    let mut out: Vec<u8> = Vec::new();
    let mut i: usize = 0;
    while i < count
        invariant
            count == data@.len() / 2,
            n == data@.len(),
            i <= count,
            out@.len() == 4 * i,
            forall|k: int| 0 <= k < 4 * i ==> #[trigger] out@[k] == tlut_px(format, be16_at(data@, 2 * (k / 4)))[k % 4],
        decreases count - i,
    {
        assert(2 * i + 2 <= n) by (nonlinear_arith)
            requires
                i < count,
                count == n / 2,
        ;
        let pixel = read_be16(data, 2 * i);
        let c: [u8; 4] = match format {
            GxTlutFmt::IA8 => decode_ia8(pixel),
            GxTlutFmt::RGB565 => decode_rgb565(pixel),
            GxTlutFmt::RGB5A3 => decode_rgb5a3(pixel),
            GxTlutFmt::Unknown(_) => [0, 0, 0, 0],
        };
        assert(c@ == tlut_px(format, pixel));
        let ghost o0 = out@;
        out.push(c[0]);
        out.push(c[1]);
        out.push(c[2]);
        out.push(c[3]);
        proof {
            assert forall|k: int| 0 <= k < 4 * (i + 1) implies #[trigger] out@[k] == tlut_px(format, be16_at(data@, 2 * (k / 4)))[k % 4] by {
                if k < 4 * i {
                    assert(out@[k] == o0[k]);
                } else {
                    assert(k / 4 == i);
                }
            }
        }
        i = i + 1;
    }
    proof {
        assert(out@ =~= palette_rgba_spec(format, data@));
    }
    out
}

// ---------------------------------------------------------------------
// Decoding
// ---------------------------------------------------------------------

/// Tile width of `format`.
pub open spec fn tile_w(format: GxTexFmt) -> int {
    match format {
        GxTexFmt::I4 | GxTexFmt::CI4 | GxTexFmt::I8 | GxTexFmt::IA4 | GxTexFmt::CI8 => 8,
        _ => 4,
    }
}

/// Tile height of `format`.
pub open spec fn tile_h(format: GxTexFmt) -> int {
    match format {
        GxTexFmt::I4 | GxTexFmt::CI4 => 8,
        _ => 4,
    }
}

/// Position in the tiled stream of the texel at `(x, y)` of a `format`
/// texture of width `w`.
pub open spec fn texel(format: GxTexFmt, w: int, x: int, y: int) -> int {
    tiled(x, y, pad_to(w, tile_w(format)), tile_w(format), tile_h(format))
}

/// The nibble holding texel `t` of a 4-bit stream: high nibble first.
pub open spec fn nibble(raw: Seq<u8>, t: int) -> int {
    if t % 2 == 0 {
        raw[t / 2] as int / 16
    } else {
        raw[t / 2] as int % 16
    }
}

/// Byte offset of the CMP block holding pixel `(x, y)`: 4×4 blocks grouped
/// by four into 8×8 super-blocks.
pub open spec fn dxt_off(x: int, y: int, w: int) -> int {
    let ww = pad_to(pad_to(w, 4), 8);
    8 * ((x / 4) % 2) + 16 * ((y / 4) % 2) + 32 * (x / 8) + 4 * ww * (y / 8)
}

/// 8-bit channels of an RGB565 block endpoint (high field = red).
pub open spec fn c565(v: int) -> (int, int, int) {
    let r = v / 2048;
    let g = (v / 32) % 64;
    let b = v % 32;
    (r * 8 + r / 4, g * 4 + g / 16, b * 8 + b / 4)
}

/// Divisor that brings the 2-bit index `k` of a byte (first = top bits)
/// down to the bottom.
pub open spec fn index_div(k: int) -> int {
    if k == 0 {
        64
    } else if k == 1 {
        16
    } else if k == 2 {
        4
    } else {
        1
    }
}

/// RGBA of pixel `(x, y)` of a CMP texture: two RGB565 endpoints, two
/// interpolated colours (or a midpoint and transparent black when the
/// first endpoint is not the larger), and sixteen 2-bit selectors.
pub open spec fn dxt_px(raw: Seq<u8>, w: int, x: int, y: int) -> Seq<u8> {
    let off = dxt_off(x, y, w);
    let v0 = be16_at(raw, off) as int;
    let v1 = be16_at(raw, off + 2) as int;
    let c0 = c565(v0);
    let c1 = c565(v1);
    let mode = v0 > v1;
    let ix = x % 4 + 4 * (y % 4);
    let sel = (raw[off + 4 + ix / 4] as int / index_div(ix % 4)) % 4;
    let col = if sel == 0 {
        c0
    } else if sel == 1 {
        c1
    } else if sel == 2 {
        if mode {
            ((2 * c0.0 + c1.0) / 3, (2 * c0.1 + c1.1) / 3, (2 * c0.2 + c1.2) / 3)
        } else {
            ((c0.0 + c1.0) / 2, (c0.1 + c1.1) / 2, (c0.2 + c1.2) / 2)
        }
    } else {
        if mode {
            ((2 * c1.0 + c0.0) / 3, (2 * c1.1 + c0.1) / 3, (2 * c1.2 + c0.2) / 3)
        } else {
            (0, 0, 0)
        }
    };
    let a: u8 = if sel == 3 && !mode {
        0
    } else {
        255
    };
    seq![col.0 as u8, col.1 as u8, col.2 as u8, a]
}

/// Red of an RGB565 endpoint whose high byte is `hi`, widened to 8 bits.
pub open spec fn r565_of(hi: u8) -> u8 {
    (hi & 0xF8) | (hi >> 5u8)
}

/// Green of an RGB565 endpoint stored as bytes `hi`, `lo`, widened.
pub open spec fn g565_of(hi: u8, lo: u8) -> u8 {
    let g: u8 = ((hi & 7) << 3u8) | (lo >> 5u8);
    (g << 2u8) | (g >> 4u8)
}

/// Blue of an RGB565 endpoint whose low byte is `lo`, widened.
pub open spec fn b565_of(lo: u8) -> u8 {
    let b: u8 = lo & 0x1F;
    (b << 3u8) | (b >> 2u8)
}

proof fn lemma_c565_bytes(hi: u8, lo: u8)
    ensures
        c565(hi as int * 256 + lo as int) == (r565_of(hi) as int, g565_of(hi, lo) as int, b565_of(lo) as int),
{
    let v: u32 = (hi as u32 * 256 + lo as u32) as u32;
    assert(v / 2048 * 8 + v / 2048 / 4 == r565_of(hi) as u32) by (bit_vector)
        requires
            v == hi as u32 * 256 + lo as u32,
    ;
    assert((v / 32) % 64 * 4 + (v / 32) % 64 / 16 == g565_of(hi, lo) as u32) by (bit_vector)
        requires
            v == hi as u32 * 256 + lo as u32,
    ;
    assert(v % 32 * 8 + v % 32 / 4 == b565_of(lo) as u32) by (bit_vector)
        requires
            v == hi as u32 * 256 + lo as u32,
    ;
}

/// Each texel of a CMP block takes the 2-bit selector at bit `6 - 2 (x % 4)`
/// of selector byte `y % 4` (the first texel of a row the top two bits):
/// selector 0 gives the first endpoint, 1 the second, both opaque; 2 is
/// opaque; 3 is opaque exactly when the first endpoint is the larger.
pub proof fn law_dxt_selector_order(raw: Seq<u8>, w: int, h: int, pal: Seq<u8>, x: int, y: int)
    requires
        0 <= x < w,
        0 <= y < h,
    ensures
        ({
            let img = decoded_image(GxTexFmt::CMP, w, h, raw, pal);
            let p = 4 * (y * w + x);
            let off = dxt_off(x, y, w);
            let sel: u8 = (raw[off + 4 + y % 4] >> ((6 - 2 * (x % 4)) as u8)) & 3u8;
            let v0 = raw[off] as int * 256 + raw[off + 1] as int;
            let v1 = raw[off + 2] as int * 256 + raw[off + 3] as int;
            &&& sel == 0 ==> img[p] == r565_of(raw[off]) && img[p + 1] == g565_of(raw[off], raw[off + 1])
                && img[p + 2] == b565_of(raw[off + 1]) && img[p + 3] == 255
            &&& sel == 1 ==> img[p] == r565_of(raw[off + 2]) && img[p + 1] == g565_of(raw[off + 2], raw[off + 3])
                && img[p + 2] == b565_of(raw[off + 3]) && img[p + 3] == 255
            &&& sel == 2 ==> img[p + 3] == 255
            &&& sel == 3 ==> (img[p + 3] == 255 <==> v0 > v1)
        }),
{
    let img = decoded_image(GxTexFmt::CMP, w, h, raw, pal);
    let q = y * w + x;
    assert(0 <= q < w * h) by (nonlinear_arith)
        requires
            0 <= x < w,
            0 <= y < h,
            q == y * w + x,
    ;
    lemma_fundamental_div_mod_converse(q, w, y, x);
    let p = 4 * q;
    assert forall|c: int| 0 <= c < 4 implies img[p + c] == dxt_px(raw, w, x, y)[c] by {
        assert((p + c) / 4 == q && (p + c) % 4 == c);
    }
    let off = dxt_off(x, y, w);
    let b = raw[off + 4 + y % 4];
    let ix = x % 4 + 4 * (y % 4);
    assert(ix / 4 == y % 4 && ix % 4 == x % 4);
    let k = x % 4;
    let sel: u8 = (b >> ((6 - 2 * k) as u8)) & 3u8;
    assert((b as int / index_div(k)) % 4 == sel as int) by {
        if k == 0 {
            assert((b / 64) % 4 == (b >> 6u8) & 3u8) by (bit_vector);
        } else if k == 1 {
            assert((b / 16) % 4 == (b >> 4u8) & 3u8) by (bit_vector);
        } else if k == 2 {
            assert((b / 4) % 4 == (b >> 2u8) & 3u8) by (bit_vector);
        } else {
            assert(b % 4 == (b >> 0u8) & 3u8) by (bit_vector);
        }
    }
    lemma_c565_bytes(raw[off], raw[off + 1]);
    lemma_c565_bytes(raw[off + 2], raw[off + 3]);
    assert(be16_at(raw, off) as int == raw[off] as int * 256 + raw[off + 1] as int);
    assert(be16_at(raw, off + 2) as int == raw[off + 2] as int * 256 + raw[off + 3] as int);
}

/// RGBA of texel `t` of an RGBA8 stream: each 4×4 tile holds sixteen
/// alpha/red pairs, then sixteen green/blue pairs.
pub open spec fn rgba8_px(raw: Seq<u8>, t: int) -> Seq<u8> {
    let ar = be16_at(raw, 64 * (t / 16) + 2 * (t % 16));
    let gb = be16_at(raw, 64 * (t / 16) + 32 + 2 * (t % 16));
    seq![(ar % 256) as u8, (gb / 256) as u8, (gb % 256) as u8, (ar / 256) as u8]
}

/// RGBA of pixel `(x, y)` of a `format` texture of `w × h` held in `raw`,
/// with the palette `pal` already decoded to RGBA8.
pub open spec fn decoded_px(
    format: GxTexFmt,
    w: int,
    h: int,
    raw: Seq<u8>,
    pal: Seq<u8>,
    x: int,
    y: int,
) -> Seq<u8> {
    let t = texel(format, w, x, y);
    match format {
        GxTexFmt::I4 => if w < 8 || h < 8 {
            seq![0u8, 0u8, 0u8, 0u8]
        } else {
            let v = scale(nibble(raw, t), 15);
            seq![v, v, v, v]
        },
        GxTexFmt::I8 => seq![raw[t], raw[t], raw[t], raw[t]],
        GxTexFmt::IA4 => {
            let i = scale(raw[t] as int % 16, 15);
            seq![i, i, i, scale(raw[t] as int / 16, 15)]
        },
        GxTexFmt::IA8 => ia8_px(be16_at(raw, 2 * t)),
        GxTexFmt::RGB565 => rgb565_px(be16_at(raw, 2 * t)),
        GxTexFmt::RGB5A3 => rgb5a3_px(be16_at(raw, 2 * t)),
        GxTexFmt::RGBA8 => rgba8_px(raw, t),
        GxTexFmt::CI4 => if t / 2 < raw.len() {
            pal_entry(pal, nibble(raw, t))
        } else {
            seq![0u8, 0u8, 0u8, 0u8]
        },
        GxTexFmt::CI8 => if t < raw.len() {
            pal_entry(pal, raw[t] as int)
        } else {
            seq![0u8, 0u8, 0u8, 0u8]
        },
        GxTexFmt::CI14X2 => pal_entry(pal, be16_at(raw, 2 * t) as int % 0x4000),
        GxTexFmt::CMP => dxt_px(raw, w, x, y),
        GxTexFmt::Unknown(_) => seq![0u8, 0u8, 0u8, 0u8],
    }
}

/// The RGBA8 image of a `format` texture of `w × h`, row-major.
pub open spec fn decoded_image(
    format: GxTexFmt,
    w: int,
    h: int,
    raw: Seq<u8>,
    pal: Seq<u8>,
) -> Seq<u8> {
    Seq::new(
        (w * h * 4) as nat,
        |k: int| decoded_px(format, w, h, raw, pal, (k / 4) % w, (k / 4) / w)[k % 4],
    )
}

/// Bytes the tile walk of `format` reads: every texel of the padded grid.
pub open spec fn decode_need(format: GxTexFmt, w: int, h: int) -> int {
    let p4 = pad_to(w, 4) * pad_to(h, 4);
    match format {
        GxTexFmt::I4 => if w < 8 || h < 8 {
            0
        } else {
            pad_to(w, 8) * pad_to(h, 8) / 2
        },
        GxTexFmt::I8 | GxTexFmt::IA4 => pad_to(w, 8) * pad_to(h, 4),
        GxTexFmt::IA8 | GxTexFmt::RGB565 | GxTexFmt::RGB5A3 | GxTexFmt::CI14X2 => p4 * 2,
        GxTexFmt::RGBA8 => p4 * 4,
        _ => 0,
    }
}

/// `raw` covers every read of the decoder.
pub open spec fn decode_reads_ok(format: GxTexFmt, w: int, h: int, raw_len: int) -> bool {
    &&& raw_len >= decode_need(format, w, h)
    &&& format is CMP ==> forall|x: int, y: int|
        0 <= x < w && 0 <= y < h ==> #[trigger] dxt_off(x, y, w) + 8 <= raw_len
}

/// `v` rounded up to a multiple of `a`.
fn pad_exec(v: u64, a: u64) -> (r: u64)
    requires
        a > 0,
        v + a <= u64::MAX,
    ensures
        r == pad_to(v as int, a as int),
{
    if v % a == 0 {
        v
    } else {
        v + (a - v % a)
    }
}

/// Position in the tiled stream of texel `(x, y)` of a `w × h` texture cut
/// in `tw × th` tiles.
fn tiled_exec(w: u32, h: u32, x: u32, y: u32, tw: u128, th: u128) -> (t: u128)
    requires
        x < w,
        y < h,
        tw == 4 || tw == 8,
        th == 4 || th == 8,
    ensures
        t == tiled(x as int, y as int, pad_to(w as int, tw as int), tw as int, th as int),
        t < pad_to(w as int, tw as int) * pad_to(h as int, th as int),
{
    proof {
        lemma_pad_to(w as int, tw as int);
        lemma_pad_to(h as int, th as int);
    }
    let pw: u128 = if w as u128 % tw == 0 {
        w as u128
    } else {
        w as u128 + (tw - w as u128 % tw)
    };
    let ph: u128 = if h as u128 % th == 0 {
        h as u128
    } else {
        h as u128 + (th - h as u128 % th)
    };
    proof {
        lemma_untile_tiled(x as int, y as int, pw as int, ph as int, tw as int, th as int);
        assert(pw * ph <= 0x2_0000_0000 * 0x2_0000_0000) by (nonlinear_arith)
            requires
                pw <= 0x1_0000_0007,
                ph <= 0x1_0000_0007,
        ;
        assert((y as int / th as int) * (pw as int / tw as int) <= pw * ph) by (nonlinear_arith)
            requires
                tw >= 1,
                th >= 1,
                0 <= y < ph,
                pw >= 0,
        ;
    }
    let tt: u128 = if tw == 4 {
        if th == 4 {
            16
        } else {
            32
        }
    } else {
        if th == 4 {
            32
        } else {
            64
        }
    };
    assert(tt == tw * th) by (nonlinear_arith)
        requires
            tw == 4 || tw == 8,
            th == 4 || th == 8,
            tw == 4 && th == 4 ==> tt == 16,
            tw == 4 && th == 8 ==> tt == 32,
            tw == 8 && th == 4 ==> tt == 32,
            tw == 8 && th == 8 ==> tt == 64,
    ;
    ((y as u128 / th) * (pw / tw) + x as u128 / tw) * tt + (y as u128 % th) * tw + x as u128 % tw
}

/// 8-bit channels of an RGB565 endpoint.
fn c565_exec(v: u16) -> (c: (u32, u32, u32))
    ensures
        c.0 == c565(v as int).0,
        c.1 == c565(v as int).1,
        c.2 == c565(v as int).2,
        c.0 < 256 && c.1 < 256 && c.2 < 256,
{
    let r = v as u32 / 2048;
    let g = (v as u32 / 32) % 64;
    let b = v as u32 % 32;
    (r * 8 + r / 4, g * 4 + g / 16, b * 8 + b / 4)
}

fn dxt_pixel(raw: &[u8], w: u32, x: u32, y: u32) -> (c: [u8; 4])
    requires
        x < w,
        dxt_off(x as int, y as int, w as int) + 8 <= raw@.len(),
    ensures
        c@ == dxt_px(raw@, w as int, x as int, y as int),
{
    let w4 = pad_exec(w as u64, 4);
    proof {
        lemma_pad_to(w as int, 4);
    }
    let ww = pad_exec(w4, 8);
    proof {
        assert(4 * (ww as int) * (y as int / 8) <= 0x1_0000_0000_0000_0000_0000) by (nonlinear_arith)
            requires
                ww <= 0x1_0000_0010,
                y <= u32::MAX,
        ;
    }
    let off128: u128 = 8 * ((x as u128 / 4) % 2) + 16 * ((y as u128 / 4) % 2) + 32 * (x as u128 / 8)
        + 4 * ww as u128 * (y as u128 / 8);
    assert(off128 == dxt_off(x as int, y as int, w as int));
    let n = raw.len();
    assert(off128 + 8 <= n);
    let off = off128 as usize;
    let v0 = read_be16(raw, off);
    let v1 = read_be16(raw, off + 2);
    let c0 = c565_exec(v0);
    let c1 = c565_exec(v1);
    let mode = v0 > v1;
    let ix = (x % 4 + 4 * (y % 4)) as usize;
    let byte = raw[off + 4 + ix / 4] as u32;
    let k = ix % 4;
    let d: u32 = if k == 0 {
        64
    } else if k == 1 {
        16
    } else if k == 2 {
        4
    } else {
        1
    };
    let sel = (byte / d) % 4;
    let col: (u32, u32, u32) = if sel == 0 {
        c0
    } else if sel == 1 {
        c1
    } else if sel == 2 {
        if mode {
            ((2 * c0.0 + c1.0) / 3, (2 * c0.1 + c1.1) / 3, (2 * c0.2 + c1.2) / 3)
        } else {
            ((c0.0 + c1.0) / 2, (c0.1 + c1.1) / 2, (c0.2 + c1.2) / 2)
        }
    } else {
        if mode {
            ((2 * c1.0 + c0.0) / 3, (2 * c1.1 + c0.1) / 3, (2 * c1.2 + c0.2) / 3)
        } else {
            (0, 0, 0)
        }
    };
    let a: u8 = if sel == 3 && !mode {
        0
    } else {
        255
    };
    [col.0 as u8, col.1 as u8, col.2 as u8, a]
}

proof fn lemma_half_bound(t: int, pw: int, ph: int)
    requires
        0 <= t < pw * ph,
        pw % 8 == 0,
        pw >= 0,
        ph >= 0,
    ensures
        t / 2 < pw * ph / 2,
        (pw * ph) % 2 == 0,
{
    let k = pw / 8;
    vstd::arithmetic::div_mod::lemma_fundamental_div_mod(pw, 8);
    assert(pw * ph == (4 * k * ph) * 2) by (nonlinear_arith)
        requires
            pw == 8 * k + 0,
    ;
    assert(4 * k * ph >= 0) by (nonlinear_arith)
        requires
            k >= 0,
            ph >= 0,
    ;
    lemma_fundamental_div_mod_converse(pw * ph, 2, 4 * k * ph, 0);
}

proof fn lemma_tile_bound(t: int, pw: int, ph: int)
    requires
        0 <= t < pw * ph,
        pw % 4 == 0,
        ph % 4 == 0,
        pw >= 0,
        ph >= 0,
    ensures
        64 * (t / 16) + 64 <= 4 * (pw * ph),
        2 * t + 2 <= 2 * (pw * ph),
{
    let a = pw / 4;
    let b = ph / 4;
    vstd::arithmetic::div_mod::lemma_fundamental_div_mod(pw, 4);
    vstd::arithmetic::div_mod::lemma_fundamental_div_mod(ph, 4);
    assert(pw * ph == 16 * (a * b)) by (nonlinear_arith)
        requires
            pw == 4 * a + 0,
            ph == 4 * b + 0,
    ;
    let m = a * b;
    vstd::arithmetic::div_mod::lemma_fundamental_div_mod(t, 16);
    assert(t / 16 < m) by (nonlinear_arith)
        requires
            t == 16 * (t / 16) + t % 16,
            0 <= t % 16,
            t < 16 * m,
    ;
}

fn decode_px(
    format: GxTexFmt,
    w: u32,
    h: u32,
    raw: &[u8],
    pal: &[u8],
    x: u32,
    y: u32,
) -> (c: [u8; 4])
    requires
        x < w,
        y < h,
        decode_reads_ok(format, w as int, h as int, raw@.len() as int),
    ensures
        c@ == decoded_px(format, w as int, h as int, raw@, pal@, x as int, y as int),
{
    proof {
        lemma_pad_to(w as int, 4);
        lemma_pad_to(h as int, 4);
        lemma_pad_to(w as int, 8);
        lemma_pad_to(h as int, 8);
    }
    let len = raw.len() as u128;
    match format {
        GxTexFmt::I4 => {
            if w < 8 || h < 8 {
                return [0, 0, 0, 0];
            }
            let t = tiled_exec(w, h, x, y, 8, 8);
            proof {
                lemma_half_bound(t as int, pad_to(w as int, 8), pad_to(h as int, 8));
            }
            let b = raw[(t / 2) as usize];
            let nib = if t % 2 == 0 {
                b / 16
            } else {
                b % 16
            };
            let v = (nib as u32 * 255 / 15) as u8;
            [v, v, v, v]
        },
        GxTexFmt::I8 => {
            let t = tiled_exec(w, h, x, y, 8, 4);
            let v = raw[t as usize];
            [v, v, v, v]
        },
        GxTexFmt::IA4 => {
            let t = tiled_exec(w, h, x, y, 8, 4);
            let b = raw[t as usize];
            let i = ((b % 16) as u32 * 255 / 15) as u8;
            [i, i, i, ((b / 16) as u32 * 255 / 15) as u8]
        },
        GxTexFmt::IA8 | GxTexFmt::RGB565 | GxTexFmt::RGB5A3 => {
            let t = tiled_exec(w, h, x, y, 4, 4);
            proof {
                lemma_tile_bound(t as int, pad_to(w as int, 4), pad_to(h as int, 4));
            }
            let p = read_be16(raw, (2 * t) as usize);
            match format {
                GxTexFmt::IA8 => decode_ia8(p),
                GxTexFmt::RGB565 => decode_rgb565(p),
                _ => decode_rgb5a3(p),
            }
        },
        GxTexFmt::RGBA8 => {
            let t = tiled_exec(w, h, x, y, 4, 4);
            proof {
                lemma_tile_bound(t as int, pad_to(w as int, 4), pad_to(h as int, 4));
            }
            let base = (64 * (t / 16) + 2 * (t % 16)) as usize;
            let ar = read_be16(raw, base);
            let gb = read_be16(raw, base + 32);
            [(ar % 256) as u8, (gb / 256) as u8, (gb % 256) as u8, (ar / 256) as u8]
        },
        GxTexFmt::CI4 => {
            let t = tiled_exec(w, h, x, y, 8, 8);
            if t / 2 >= len {
                return [0, 0, 0, 0];
            }
            let b = raw[(t / 2) as usize];
            let nib = if t % 2 == 0 {
                b / 16
            } else {
                b % 16
            };
            copy_pal(pal, nib as usize)
        },
        GxTexFmt::CI8 => {
            let t = tiled_exec(w, h, x, y, 8, 4);
            if t >= len {
                return [0, 0, 0, 0];
            }
            copy_pal(pal, raw[t as usize] as usize)
        },
        GxTexFmt::CI14X2 => {
            let t = tiled_exec(w, h, x, y, 4, 4);
            proof {
                lemma_tile_bound(t as int, pad_to(w as int, 4), pad_to(h as int, 4));
            }
            let p = read_be16(raw, (2 * t) as usize);
            copy_pal(pal, (p % 0x4000) as usize)
        },
        GxTexFmt::CMP => {
            proof {
                assert(dxt_off(x as int, y as int, w as int) + 8 <= raw@.len());
            }
            dxt_pixel(raw, w, x, y)
        },
        GxTexFmt::Unknown(_) => [0, 0, 0, 0],
    }
}

/// The palette a decode uses: the decoded TLUT, or none.
pub open spec fn palette_of(palette: Option<(GxTlutFmt, &[u8])>) -> Seq<u8> {
    match palette {
        Some((fmt, data)) => palette_rgba_spec(fmt, data@),
        None => Seq::empty(),
    }
}

/// Bytes the decoder reads of a `format` texture of `w × h`: its whole tile
/// grid.
pub open spec fn read_need(format: GxTexFmt, w: int, h: int) -> int {
    if format is CMP {
        if w > 0 && h > 0 {
            pad_to(pad_to(w, 4), 8) * pad_to(h, 8) / 2
        } else {
            0
        }
    } else {
        decode_need(format, w, h)
    }
}

/// `raw` followed by zeros up to `n` bytes (unchanged when it is longer).
pub open spec fn zero_pad(raw: Seq<u8>, n: int) -> Seq<u8> {
    if raw.len() >= n {
        raw
    } else {
        raw + Seq::new((n - raw.len()) as nat, |i: int| 0u8)
    }
}

proof fn lemma_read_need(format: GxTexFmt, w: int, h: int, len: int)
    requires
        0 <= w,
        0 <= h,
        len >= read_need(format, w, h),
    ensures
        decode_reads_ok(format, w, h, len),
{
    if format is CMP && w > 0 && h > 0 {
        let ww = pad_to(pad_to(w, 4), 8);
        let ph = pad_to(h, 8);
        lemma_pad_to(w, 4);
        lemma_pad_to(pad_to(w, 4), 8);
        lemma_pad_to(h, 8);
        assert forall|x: int, y: int| 0 <= x < w && 0 <= y < h implies #[trigger] dxt_off(x, y, w) + 8 <= len by {
            assert(dxt_off(x, y, w) + 8 <= ww * ph / 2) by (nonlinear_arith)
                requires
                    0 <= x < w,
                    0 <= y < h,
                    w <= ww,
                    h <= ph,
                    ww % 8 == 0,
                    ph % 8 == 0,
                    dxt_off(x, y, w) == 8 * ((x / 4) % 2) + 16 * ((y / 4) % 2) + 32 * (x / 8) + 4 * ww * (y / 8),
            {
                assert(x / 8 <= ww / 8 - 1);
                assert(y / 8 <= ph / 8 - 1);
                assert(4 * ww * (y / 8) <= 4 * ww * (ph / 8 - 1));
                assert((x / 4) % 2 <= 1);
                assert((y / 4) % 2 <= 1);
                assert(4 * ww * (ph / 8) == ww * ph / 2);
            }
        }
    }
}

/// `read_need` for the executable decoder.
fn read_need_exec(format: GxTexFmt, w: u32, h: u32) -> (r: u128)
    ensures
        r == read_need(format, w as int, h as int),
{
    let p4w = pad_exec(w as u64, 4) as u128;
    let p4h = pad_exec(h as u64, 4) as u128;
    let p8w = pad_exec(w as u64, 8) as u128;
    let p8h = pad_exec(h as u64, 8) as u128;
    proof {
        lemma_pad_to(w as int, 8);
        lemma_pad_to(h as int, 8);
        lemma_pad_to(h as int, 4);
        assert(p8w * p8h <= 0x2_0000_0000 * 0x2_0000_0000) by (nonlinear_arith)
            requires
                p8w <= 0x2_0000_0000,
                p8h <= 0x2_0000_0000,
        ;
        assert(p8w * p4h <= 0x2_0000_0000 * 0x2_0000_0000) by (nonlinear_arith)
            requires
                p8w <= 0x2_0000_0000,
                p4h <= 0x2_0000_0000,
        ;
        lemma_pad_to(w as int, 4);
        assert(p4w * p4h <= 0x2_0000_0000 * 0x2_0000_0000) by (nonlinear_arith)
            requires
                p4w <= 0x2_0000_0000,
                p4h <= 0x2_0000_0000,
        ;
        lemma_pad_to(p4w as int, 8);
        assert(pad_to(p4w as int, 8) * p8h <= 0x4_0000_0000 * 0x2_0000_0000) by (nonlinear_arith)
            requires
                pad_to(p4w as int, 8) <= 0x4_0000_0000,
                p8h <= 0x2_0000_0000,
        ;
    }
    match format {
        GxTexFmt::I4 => if w < 8 || h < 8 {
            0
        } else {
            p8w * p8h / 2
        },
        GxTexFmt::I8 | GxTexFmt::IA4 => p8w * p4h,
        GxTexFmt::IA8 | GxTexFmt::RGB565 | GxTexFmt::RGB5A3 | GxTexFmt::CI14X2 => p4w * p4h * 2,
        GxTexFmt::RGBA8 => p4w * p4h * 4,
        GxTexFmt::CMP => if w > 0 && h > 0 {
            let ww = pad_exec(p4w as u64, 8) as u128;
            ww * p8h / 2
        } else {
            0
        },
        _ => 0,
    }
}

/// A copy of `raw` followed by zeros up to `n` bytes.
fn zero_padded(raw: &[u8], n: usize) -> (v: Vec<u8>)
    ensures
        v@ == zero_pad(raw@, n as int),
{
    let mut v: Vec<u8> = Vec::new();
    let mut i: usize = 0;
    while i < raw.len()
        invariant
            i <= raw@.len(),
            v@ == raw@.take(i as int),
        decreases raw@.len() - i,
    {
        v.push(raw[i]);
        proof {
            assert(raw@.take(i + 1) =~= raw@.take(i as int).push(raw@[i as int]));
        }
        i = i + 1;
    }
    proof {
        assert(raw@.take(raw@.len() as int) =~= raw@);
    }
    while v.len() < n
        invariant
            v@.len() >= raw@.len(),
            v@.subrange(0, raw@.len() as int) == raw@,
            forall|k: int| raw@.len() <= k < v@.len() ==> v@[k] == 0u8,
            raw@.len() < n ==> v@.len() <= n,
            raw@.len() >= n ==> v@ == raw@,
        decreases n - v@.len(),
    {
        let ghost v0 = v@;
        v.push(0u8);
        proof {
            assert(v@.subrange(0, raw@.len() as int) =~= v0.subrange(0, raw@.len() as int));
        }
    }
    proof {
        if raw@.len() < n {
            assert(v@ =~= zero_pad(raw@, n as int));
        }
    }
    v
}

/// Decode a `format` texture of `width × height` into RGBA8, row-major.
/// `palette` supplies the TLUT of the paletted formats.  Data shorter than
/// `image_size` and unknown formats are refused; data that covers
/// `image_size` but not the whole tile grid is read as if followed by
/// zeros.
pub fn decode_image(
    format: GxTexFmt,
    width: u32,
    height: u32,
    raw: &[u8],
    palette: Option<(GxTlutFmt, &[u8])>,
) -> (r: Result<Vec<u8>>)
    requires
        width <= u32::MAX - 3,
        pad_to(width as int, 4) * height * 4 <= usize::MAX,
        read_need(format, width as int, height as int) <= usize::MAX,
    ensures
        r is Err <==> (raw@.len() < image_size_spec(format, width, height) || format is Unknown),
        r matches Err(e) ==> (e matches HsdError::Malformed { offset, .. } && offset == 0),
        r matches Ok(v) ==> v@ == decoded_image(
            format,
            width as int,
            height as int,
            zero_pad(raw@, read_need(format, width as int, height as int)),
            palette_of(palette),
        ),
        raw@.len() >= read_need(format, width as int, height as int) ==> (r matches Ok(v) ==> v@ == decoded_image(
            format,
            width as int,
            height as int,
            raw@,
            palette_of(palette),
        )),
{
    let needed = image_size(format, width, height);
    if raw.len() < needed {
        return Err(HsdError::malformed(0, "texture data shorter than expected"));
    }
    if let GxTexFmt::Unknown(_) = format {
        return Err(HsdError::malformed(0, "unknown texture format"));
    }
    let need = read_need_exec(format, width, height);
    let src = zero_padded(raw, need as usize);
    let raw = src.as_slice();
    proof {
        lemma_read_need(format, width as int, height as int, raw@.len() as int);
    }
    let pal: Vec<u8> = match palette {
        Some((fmt, data)) => palette_to_rgba(fmt, data),
        None => Vec::new(),
    };
    assert(pal@ == palette_of(palette));
    proof {
        lemma_pad_to(width as int, 4);
        assert(width as int * height as int * 4 <= pad_to(width as int, 4) * height * 4) by (nonlinear_arith)
            requires
                width <= pad_to(width as int, 4),
                height >= 0,
        ;
    }
    let n: usize = width as usize * height as usize;
    let ghost img = decoded_image(format, width as int, height as int, raw@, pal@);
    let mut out: Vec<u8> = Vec::new();
    let mut x: u32 = 0;
    let mut y: u32 = 0;
    let mut q: usize = 0;
    while q < n
        invariant
            n == width * height,
            n * 4 <= usize::MAX,
            q <= n,
            q == y * width + x,
            q < n ==> x < width && y < height,
            x < width || width == 0,
            img == decoded_image(format, width as int, height as int, raw@, pal@),
            img.len() == 4 * n,
            out@.len() == 4 * q,
            forall|k: int| 0 <= k < 4 * q ==> #[trigger] out@[k] == img[k],
            raw@.len() >= image_size_spec(format, width, height),
            decode_reads_ok(format, width as int, height as int, raw@.len() as int),
        decreases n - q,
    {
        let c = decode_px(format, width, height, raw, pal.as_slice(), x, y);
        proof {
            lemma_fundamental_div_mod_converse(q as int, width as int, y as int, x as int);
        }
        let ghost o0 = out@;
        out.push(c[0]);
        out.push(c[1]);
        out.push(c[2]);
        out.push(c[3]);
        proof {
            assert forall|k: int| 0 <= k < 4 * (q + 1) implies #[trigger] out@[k] == img[k] by {
                if k < 4 * q {
                    assert(out@[k] == o0[k]);
                } else {
                    assert(k / 4 == q);
                    assert(k % 4 == k - 4 * q);
                }
            }
        }
        q = q + 1;
        x = x + 1;
        if x == width {
            proof {
                assert((y + 1) * width == y * width + width) by (nonlinear_arith);
            }
            x = 0;
            y = y + 1;
        }
        proof {
            if q < n {
                assert(y < height) by (nonlinear_arith)
                    requires
                        q == y * width + x,
                        q < width * height,
                        x >= 0,
                        width > 0,
                ;
            }
        }
    }
    proof {
        assert(out@ =~= img);
    }
    Ok(out)
}

// ---------------------------------------------------------------------
// Encoding
// ---------------------------------------------------------------------

/// Options of `encode_image_with_options`.
#[derive(Debug, Clone, Copy)]
pub struct EncodeOptions {
    /// Swap red and blue before the RGB5A3 encode, for samplers that read
    /// its 5/5/5 fields in the other order.  No effect on other formats.
    pub swap_rb_for_rgb5a3: bool,
}

impl Default for EncodeOptions {
    fn default() -> (o: Self)
        ensures
            !o.swap_rb_for_rgb5a3,
    {
        EncodeOptions { swap_rb_for_rgb5a3: false }
    }
}

/// Round-half-up quantisation of an 8-bit channel to `levels` steps.
pub open spec fn quant(c: int, levels: int) -> int {
    (c * levels + 127) / 255
}

/// Luminance of an RGB colour (ITU-R BT.601 weights, rounded).
pub open spec fn lum(px: Seq<u8>) -> int {
    (299 * px[0] + 587 * px[1] + 114 * px[2] + 500) / 1000
}

/// RGBA of pixel `(x, y)` of a `w × h` RGBA8 image; transparent black
/// outside it.
pub open spec fn sample(rgba: Seq<u8>, w: int, h: int, x: int, y: int) -> Seq<u8> {
    if 0 <= x < w && 0 <= y < h {
        rgba.subrange(4 * (y * w + x), 4 * (y * w + x) + 4)
    } else {
        seq![0u8, 0u8, 0u8, 0u8]
    }
}

/// RGB565 texel of `px`: blue in the high field, red in the low.
pub open spec fn rgb565_enc(px: Seq<u8>) -> int {
    quant(px[2] as int, 31) * 2048 + quant(px[1] as int, 63) * 32 + quant(px[0] as int, 31)
}

/// RGB5A3 texel of `px`: 5/5/5 when opaque, 3-bit alpha and 4/4/4 else.
pub open spec fn rgb5a3_enc(px: Seq<u8>) -> int {
    if px[3] == 255 {
        0x8000 + quant(px[2] as int, 31) * 1024 + quant(px[1] as int, 31) * 32 + quant(
            px[0] as int,
            31,
        )
    } else {
        quant(px[3] as int, 7) * 4096 + quant(px[2] as int, 15) * 256 + quant(px[1] as int, 15) * 16
            + quant(px[0] as int, 15)
    }
}

/// One-byte texel of `px` for I8, IA4 (intensity formats).
pub open spec fn enc8(format: GxTexFmt, px: Seq<u8>) -> int {
    match format {
        GxTexFmt::IA4 => quant(px[3] as int, 15) * 16 + quant(lum(px), 15),
        _ => lum(px),
    }
}

/// Two-byte texel of `px` for IA8, RGB565, RGB5A3.
pub open spec fn enc16(format: GxTexFmt, px: Seq<u8>) -> int {
    match format {
        GxTexFmt::IA8 => px[3] as int * 256 + lum(px),
        GxTexFmt::RGB565 => rgb565_enc(px),
        _ => rgb5a3_enc(px),
    }
}

/// Padded width and height of the encoded grid of `format`.
pub open spec fn enc_pw(format: GxTexFmt, w: int) -> int {
    pad_to(w, tile_w(format))
}

pub open spec fn enc_ph(format: GxTexFmt, h: int) -> int {
    pad_to(h, tile_h(format))
}

/// RGBA of texel `t` of the encoded grid.
pub open spec fn texel_px(format: GxTexFmt, rgba: Seq<u8>, w: int, h: int, t: int) -> Seq<u8> {
    let pw = enc_pw(format, w);
    sample(
        rgba,
        w,
        h,
        untile_x(t, pw, tile_w(format), tile_h(format)),
        untile_y(t, pw, tile_w(format), tile_h(format)),
    )
}

/// Byte `m` of the encoded stream of a mechanical format.
pub open spec fn encoded_byte(format: GxTexFmt, rgba: Seq<u8>, w: int, h: int, m: int) -> u8 {
    match format {
        GxTexFmt::I4 => (quant(lum(texel_px(format, rgba, w, h, 2 * m)), 15) * 16 + quant(
            lum(texel_px(format, rgba, w, h, 2 * m + 1)),
            15,
        )) as u8,
        GxTexFmt::I8 | GxTexFmt::IA4 => enc8(format, texel_px(format, rgba, w, h, m)) as u8,
        GxTexFmt::RGBA8 => {
            let k = m / 64;
            let r = (m % 64) % 32;
            let px = texel_px(format, rgba, w, h, 16 * k + r / 2);
            if (m % 64) < 32 {
                if r % 2 == 0 {
                    px[3]
                } else {
                    px[0]
                }
            } else {
                if r % 2 == 0 {
                    px[1]
                } else {
                    px[2]
                }
            }
        },
        _ => {
            let v = enc16(format, texel_px(format, rgba, w, h, m / 2));
            if m % 2 == 0 {
                (v / 256) as u8
            } else {
                (v % 256) as u8
            }
        },
    }
}

/// Byte count of the encoded stream of a mechanical format.
pub open spec fn encoded_len(format: GxTexFmt, w: int, h: int) -> int {
    let n = enc_pw(format, w) * enc_ph(format, h);
    match format {
        GxTexFmt::I4 => n / 2,
        GxTexFmt::I8 | GxTexFmt::IA4 => n,
        GxTexFmt::RGBA8 => n * 4,
        _ => n * 2,
    }
}

/// The encoded stream of a mechanical format.
pub open spec fn encoded_image(format: GxTexFmt, rgba: Seq<u8>, w: int, h: int) -> Seq<u8> {
    Seq::new(encoded_len(format, w, h) as nat, |m: int| encoded_byte(format, rgba, w, h, m))
}

/// The formats encoded texel by texel.
pub open spec fn mechanical(format: GxTexFmt) -> bool {
    format is I4 || format is I8 || format is IA4 || format is IA8 || format is RGB565
        || format is RGB5A3 || format is RGBA8
}

fn quant_exec(c: u8, levels: u32) -> (q: u32)
    requires
        levels <= 63,
    ensures
        q == quant(c as int, levels as int),
        q <= levels,
{
    assert((c as int * levels + 127) / 255 <= levels) by (nonlinear_arith)
        requires
            c <= 255,
            levels >= 0,
    ;
    (c as u32 * levels + 127) / 255
}

fn lum_exec(px: &[u8; 4]) -> (l: u32)
    ensures
        l == lum(px@),
        l <= 255,
{
    (299 * px[0] as u32 + 587 * px[1] as u32 + 114 * px[2] as u32 + 500) / 1000
}

fn sample_exec(rgba: &[u8], w: u32, h: u32, x: u128, y: u128) -> (px: [u8; 4])
    requires
        rgba@.len() == w * h * 4,
    ensures
        px@ == sample(rgba@, w as int, h as int, x as int, y as int),
{
    let n = rgba.len();
    if x < w as u128 && y < h as u128 {
        proof {
            assert(y * w + x < w * h) by (nonlinear_arith)
                requires
                    x < w,
                    y < h,
            ;
            assert(y * w <= w * h) by (nonlinear_arith)
                requires
                    y < h,
            ;
        }
        let p = ((y * w as u128 + x) * 4) as usize;
        let px = [rgba[p], rgba[p + 1], rgba[p + 2], rgba[p + 3]];
        proof {
            assert(px@ =~= rgba@.subrange(4 * (y * w + x), 4 * (y * w + x) + 4));
        }
        px
    } else {
        [0, 0, 0, 0]
    }
}

/// RGBA of texel `t` of the encoded grid of `format`.
fn texel_px_exec(format: GxTexFmt, rgba: &[u8], w: u32, h: u32, t: u64) -> (px: [u8; 4])
    requires
        rgba@.len() == w * h * 4,
    ensures
        px@ == texel_px(format, rgba@, w as int, h as int, t as int),
{
    let tw: u128 = match format {
        GxTexFmt::I4 | GxTexFmt::CI4 | GxTexFmt::I8 | GxTexFmt::IA4 | GxTexFmt::CI8 => 8,
        _ => 4,
    };
    let th: u128 = match format {
        GxTexFmt::I4 | GxTexFmt::CI4 => 8,
        _ => 4,
    };
    let pw: u128 = if w as u128 % tw == 0 {
        w as u128
    } else {
        w as u128 + (tw - w as u128 % tw)
    };
    proof {
        lemma_pad_to(w as int, tw as int);
    }
    let cols = pw / tw;
    if cols == 0 {
        proof {
            assert(w == 0);
        }
        return [0, 0, 0, 0];
    }
    let t = t as u128;
    let tile = t / (tw * th);
    let within = t % (tw * th);
    proof {
        assert((tile % cols) * tw + within % tw <= 0x1_0000_0000_0000_0000_0000) by (nonlinear_arith)
            requires
                0 <= tile % cols < cols,
                cols * tw <= 0x1_0000_0008,
                0 <= within % tw < tw,
                tw <= 8,
        ;
        assert((tile / cols) * th + within / tw <= 0x1_0000_0000_0000_0000_0000) by (nonlinear_arith)
            requires
                cols >= 1,
                th <= 8,
                tw >= 4,
                tile <= t,
                t <= u64::MAX,
                within < 64,
        ;
    }
    let x = (tile % cols) * tw + within % tw;
    let y = (tile / cols) * th + within / tw;
    sample_exec(rgba, w, h, x, y)
}

fn enc8_exec(format: GxTexFmt, px: &[u8; 4]) -> (v: u8)
    requires
        format is I8 || format is IA4,
    ensures
        v == enc8(format, px@) as u8,
        enc8(format, px@) < 256,
{
    let l = lum_exec(px);
    match format {
        GxTexFmt::IA4 => (quant_exec(px[3], 15) * 16 + quant_exec(l as u8, 15)) as u8,
        _ => l as u8,
    }
}

fn enc16_exec(format: GxTexFmt, px: &[u8; 4]) -> (v: u16)
    requires
        format is IA8 || format is RGB565 || format is RGB5A3,
    ensures
        v == enc16(format, px@),
{
    match format {
        GxTexFmt::IA8 => (px[3] as u32 * 256 + lum_exec(px)) as u16,
        GxTexFmt::RGB565 => (quant_exec(px[2], 31) * 2048 + quant_exec(px[1], 63) * 32 + quant_exec(
            px[0],
            31,
        )) as u16,
        _ => {
            if px[3] == 255 {
                (0x8000 + quant_exec(px[2], 31) * 1024 + quant_exec(px[1], 31) * 32 + quant_exec(
                    px[0],
                    31,
                )) as u16
            } else {
                (quant_exec(px[3], 7) * 4096 + quant_exec(px[2], 15) * 256 + quant_exec(px[1], 15)
                    * 16 + quant_exec(px[0], 15)) as u16
            }
        },
    }
}

fn encoded_byte_exec(format: GxTexFmt, rgba: &[u8], w: u32, h: u32, m: u64) -> (b: u8)
    requires
        mechanical(format),
        rgba@.len() == w * h * 4,
        m < 0x1_0000_0000_0000,
    ensures
        b == encoded_byte(format, rgba@, w as int, h as int, m as int),
{
    match format {
        GxTexFmt::I4 => {
            let a = texel_px_exec(format, rgba, w, h, 2 * m);
            let b = texel_px_exec(format, rgba, w, h, 2 * m + 1);
            (quant_exec(lum_exec(&a) as u8, 15) * 16 + quant_exec(lum_exec(&b) as u8, 15)) as u8
        },
        GxTexFmt::I8 | GxTexFmt::IA4 => {
            let px = texel_px_exec(format, rgba, w, h, m);
            enc8_exec(format, &px)
        },
        GxTexFmt::RGBA8 => {
            let k = m / 64;
            let r = (m % 64) % 32;
            let px = texel_px_exec(format, rgba, w, h, 16 * k + r / 2);
            if (m % 64) < 32 {
                if r % 2 == 0 {
                    px[3]
                } else {
                    px[0]
                }
            } else {
                if r % 2 == 0 {
                    px[1]
                } else {
                    px[2]
                }
            }
        },
        _ => {
            let px = texel_px_exec(format, rgba, w, h, m / 2);
            let v = enc16_exec(format, &px);
            if m % 2 == 0 {
                (v / 256) as u8
            } else {
                (v % 256) as u8
            }
        },
    }
}

/// The encoded grid of the formats with a size limit of 32 bits fits it.
pub open spec fn encode_fits(format: GxTexFmt, w: int, h: int) -> bool {
    pad_to(pad_to(w, 4), 8) * pad_to(pad_to(h, 4), 8) * 4 <= u32::MAX
}

/// Encode a mechanical format texel by texel.
fn encode_mechanical(format: GxTexFmt, rgba: &[u8], w: u32, h: u32) -> (out: Vec<u8>)
    requires
        mechanical(format),
        rgba@.len() == w * h * 4,
        encode_fits(format, w as int, h as int),
    ensures
        out@ == encoded_image(format, rgba@, w as int, h as int),
{
    proof {
        lemma_pad_to(w as int, 4);
        lemma_pad_to(h as int, 4);
        lemma_pad_to(w as int, 8);
        lemma_pad_to(h as int, 8);
        lemma_pad_to(pad_to(w as int, 4), 8);
        lemma_pad_to(pad_to(h as int, 4), 8);
        assert(pad_to(w as int, 8) <= pad_to(pad_to(w as int, 4), 8));
        assert(pad_to(h as int, 8) <= pad_to(pad_to(h as int, 4), 8));
        assert(encoded_len(format, w as int, h as int) <= u32::MAX) by (nonlinear_arith)
            requires
                encode_fits(format, w as int, h as int),
                enc_pw(format, w as int) <= pad_to(pad_to(w as int, 4), 8),
                enc_ph(format, h as int) <= pad_to(pad_to(h as int, 4), 8),
                enc_pw(format, w as int) >= 0,
                enc_ph(format, h as int) >= 0,
                encoded_len(format, w as int, h as int) <= enc_pw(format, w as int) * enc_ph(format, h as int) * 4,
        ;
    }
    let tw: u64 = match format {
        GxTexFmt::I4 | GxTexFmt::I8 | GxTexFmt::IA4 => 8,
        _ => 4,
    };
    let th: u64 = match format {
        GxTexFmt::I4 => 8,
        _ => 4,
    };
    let n = pad_exec(w as u64, tw) * pad_exec(h as u64, th);
    let len: u64 = match format {
        GxTexFmt::I4 => n / 2,
        GxTexFmt::I8 | GxTexFmt::IA4 => n,
        GxTexFmt::RGBA8 => n * 4,
        _ => n * 2,
    };
    assert(len == encoded_len(format, w as int, h as int));
    let mut out: Vec<u8> = Vec::new();
    let mut m: u64 = 0;
    while m < len
        invariant
            mechanical(format),
            rgba@.len() == w * h * 4,
            len == encoded_len(format, w as int, h as int),
            len <= u32::MAX,
            m <= len,
            out@.len() == m,
            forall|k: int| 0 <= k < m ==> #[trigger] out@[k] == encoded_byte(format, rgba@, w as int, h as int, k),
        decreases len - m,
    {
        let b = encoded_byte_exec(format, rgba, w, h, m);
        out.push(b);
        m = m + 1;
    }
    proof {
        assert(out@ =~= encoded_image(format, rgba@, w as int, h as int));
    }
    out
}

// ---------------------------------------------------------------------
// CMP
// ---------------------------------------------------------------------

/// What texpresso's BC1 compressor writes for an RGBA8 image of
/// `width × height`, with its default parameters.
pub uninterp spec fn bc1_compress(rgba: Seq<u8>, width: usize, height: usize) -> Seq<u8>;

/// `texpresso::Format::Bc1.compress` with default `Params`, into a buffer of
/// exactly the compressed size (`width * height / 2` bytes when both are
/// multiples of 4).  A zero width would make texpresso split the output
/// into chunks of length 0, which panics, so the size must be nonzero.  The contract claims that the buffer keeps that length
/// and that its contents are a function of the pixels and the size.
#[verifier::external_body]
fn bc1(rgba: &[u8], width: usize, height: usize) -> (out: Vec<u8>)
    requires
        width > 0,
        height > 0,
        width % 4 == 0,
        height % 4 == 0,
        rgba@.len() == width * height * 4,
    ensures
        out@.len() == width * height / 2,
        out@ == bc1_compress(rgba@, width, height),
{
    let mut out = vec![0u8; width * height / 2];
    texpresso::Format::Bc1.compress(rgba, width, height, texpresso::Params::default(), &mut out);
    out
}

/// The 2-bit fields of a byte in reverse order.
pub open spec fn rev2(b: int) -> int {
    (b % 4) * 64 + ((b / 4) % 4) * 16 + ((b / 16) % 4) * 4 + (b / 64) % 4
}

/// Byte `m` of the GX CMP stream built from the BC1 blocks `pc` (row-major
/// blocks of a `pw`-wide grid): blocks grouped by four into 8×8
/// super-blocks, endpoints big-endian, selectors first-pixel-high.
pub open spec fn dxt_byte(pc: Seq<u8>, pw: int, m: int) -> u8 {
    let q = m / 8;
    let j = m % 8;
    let c = pw / 8;
    let bx = 2 * ((q / 4) % c) + q % 2;
    let by = 2 * ((q / 4) / c) + (q / 2) % 2;
    let base = (by * (pw / 4) + bx) * 8;
    if j == 0 {
        pc[base + 1]
    } else if j == 1 {
        pc[base]
    } else if j == 2 {
        pc[base + 3]
    } else if j == 3 {
        pc[base + 2]
    } else {
        rev2(pc[base + j] as int) as u8
    }
}

proof fn lemma_rev2_fields(b: u8, k: int)
    requires
        0 <= k < 4,
    ensures
        ((rev2(b as int) as u8) >> ((6 - 2 * k) as u8)) & 3u8 == (b >> ((2 * k) as u8)) & 3u8,
{
    let v: u32 = b as u32;
    let r: u32 = (v % 4 * 64 + v / 4 % 4 * 16 + v / 16 % 4 * 4 + v / 64 % 4) as u32;
    assert(r as int == rev2(b as int));
    if k == 0 {
        assert(((r as u8) >> 6u8) & 3u8 == (b >> 0u8) & 3u8) by (bit_vector)
            requires
                v == b as u32,
                r == (v % 4 * 64 + v / 4 % 4 * 16 + v / 16 % 4 * 4 + v / 64 % 4) as u32,
        ;
    } else if k == 1 {
        assert(((r as u8) >> 4u8) & 3u8 == (b >> 2u8) & 3u8) by (bit_vector)
            requires
                v == b as u32,
                r == (v % 4 * 64 + v / 4 % 4 * 16 + v / 16 % 4 * 4 + v / 64 % 4) as u32,
        ;
    } else if k == 2 {
        assert(((r as u8) >> 2u8) & 3u8 == (b >> 4u8) & 3u8) by (bit_vector)
            requires
                v == b as u32,
                r == (v % 4 * 64 + v / 4 % 4 * 16 + v / 16 % 4 * 4 + v / 64 % 4) as u32,
        ;
    } else {
        assert(((r as u8) >> 0u8) & 3u8 == (b >> 6u8) & 3u8) by (bit_vector)
            requires
                v == b as u32,
                r == (v % 4 * 64 + v / 4 % 4 * 16 + v / 16 % 4 * 4 + v / 64 % 4) as u32,
        ;
    }
}

/// The GX CMP stream built from the row-major BC1 blocks `pc` of a
/// `pw × ph` grid holds, where the decoder looks for texel `(x, y)`, the
/// BC1 block of that texel: its endpoints byte-swapped to big-endian, and
/// in selector byte `y % 4` the texel's BC1 selector (bits `2 (x % 4)`,
/// first texel lowest) at bits `6 - 2 (x % 4)` (first texel highest).
pub proof fn law_dxt_layout(pc: Seq<u8>, pw: int, ph: int, x: int, y: int)
    requires
        pw > 0,
        pw % 8 == 0,
        ph % 8 == 0,
        0 <= x < pw,
        0 <= y < ph,
    ensures
        ({
            let enc = Seq::new((pw * ph / 2) as nat, |m: int| dxt_byte(pc, pw, m));
            let off = dxt_off(x, y, pw);
            let base = ((y / 4) * (pw / 4) + x / 4) * 8;
            &&& off + 8 <= enc.len()
            &&& enc[off] == pc[base + 1] && enc[off + 1] == pc[base]
            &&& enc[off + 2] == pc[base + 3] && enc[off + 3] == pc[base + 2]
            &&& (enc[off + 4 + y % 4] >> ((6 - 2 * (x % 4)) as u8)) & 3u8 == (pc[base + 4 + y % 4] >> ((2 * (
                x % 4)) as u8)) & 3u8
        }),
{
    let enc = Seq::new((pw * ph / 2) as nat, |m: int| dxt_byte(pc, pw, m));
    lemma_pad_to(pw, 4);
    lemma_pad_to(pw, 8);
    assert(pad_to(pw, 4) == pw);
    assert(pad_to(pw, 8) == pw);
    let off = dxt_off(x, y, pw);
    let c = pw / 8;
    let e = ph / 8;
    let a = x / 8;
    let d = y / 8;
    let u = (x / 4) % 2 + 2 * ((y / 4) % 2);
    let q = u + 4 * (a + c * d);
    assert(pw == 8 * c && ph == 8 * e);
    assert(off == 8 * q) by (nonlinear_arith)
        requires
            off == 8 * ((x / 4) % 2) + 16 * ((y / 4) % 2) + 32 * (x / 8) + 4 * pw * (y / 8),
            pw == 8 * c,
            q == u + 4 * (a + c * d),
            u == (x / 4) % 2 + 2 * ((y / 4) % 2),
            a == x / 8,
            d == y / 8,
    ;
    assert(0 <= a < c && 0 <= d < e) by (nonlinear_arith)
        requires
            0 <= x < pw,
            0 <= y < ph,
            pw == 8 * c,
            ph == 8 * e,
            a == x / 8,
            d == y / 8,
    ;
    assert(0 <= u < 4);
    assert(off + 8 <= pw * ph / 2) by (nonlinear_arith)
        requires
            off == 8 * q,
            q == u + 4 * (a + c * d),
            0 <= u < 4,
            0 <= a < c,
            0 <= d < e,
            pw == 8 * c,
            ph == 8 * e,
    ;
    assert(c > 0);
    assert(0 <= a + c * d) by (nonlinear_arith)
        requires
            0 <= a,
            0 <= d,
            c > 0,
    ;
    assert(q == (a + c * d) * 4 + u) by (nonlinear_arith)
        requires
            q == u + 4 * (a + c * d),
    ;
    assert(a + c * d == d * c + a) by (nonlinear_arith);
    lemma_fundamental_div_mod_converse(q, 4, a + c * d, u);
    lemma_fundamental_div_mod_converse(a + c * d, c, d, a);
    assert(q % 2 == (x / 4) % 2 && (q / 2) % 2 == (y / 4) % 2);
    assert(2 * a + (x / 4) % 2 == x / 4);
    assert(2 * d + (y / 4) % 2 == y / 4);
    lemma_fundamental_div_mod_converse(off, 8, q, 0);
    lemma_fundamental_div_mod_converse(off + 1, 8, q, 1);
    lemma_fundamental_div_mod_converse(off + 2, 8, q, 2);
    lemma_fundamental_div_mod_converse(off + 3, 8, q, 3);
    lemma_fundamental_div_mod_converse(off + 4 + y % 4, 8, q, 4 + y % 4);
    let base = ((y / 4) * (pw / 4) + x / 4) * 8;
    assert(dxt_byte(pc, pw, off) == pc[base + 1]);
    assert(dxt_byte(pc, pw, off + 1) == pc[base]);
    assert(dxt_byte(pc, pw, off + 2) == pc[base + 3]);
    assert(dxt_byte(pc, pw, off + 3) == pc[base + 2]);
    assert(dxt_byte(pc, pw, off + 4 + y % 4) == rev2(pc[base + 4 + y % 4] as int) as u8);
    lemma_rev2_fields(pc[base + 4 + y % 4], x % 4);
}

/// Rearrange row-major BC1 blocks of a `w_pad × h_pad` grid (multiples of
/// 8) into the GX CMP layout.
pub fn dxt_from_bc1(bc1: &[u8], w_pad: u32, h_pad: u32) -> (out: Vec<u8>)
    requires
        w_pad % 8 == 0,
        h_pad % 8 == 0,
        bc1@.len() == w_pad * h_pad / 2,
        w_pad * h_pad <= u32::MAX,
    ensures
        out@ == Seq::new((w_pad * h_pad / 2) as nat, |m: int| dxt_byte(bc1@, w_pad as int, m)),
{
    let len = (w_pad as u64 * h_pad as u64 / 2) as usize;
    let c = w_pad as u64 / 8;
    let bpr = w_pad as u64 / 4;
    let mut out: Vec<u8> = Vec::new();
    let mut m: usize = 0;
    while m < len
        invariant
            len == w_pad * h_pad / 2,
            w_pad % 8 == 0,
            h_pad % 8 == 0,
            w_pad * h_pad <= u32::MAX,
            c == w_pad / 8,
            bpr == w_pad / 4,
            bc1@.len() == len,
            m <= len,
            out@.len() == m,
            forall|k: int| 0 <= k < m ==> #[trigger] out@[k] == dxt_byte(bc1@, w_pad as int, k),
        decreases len - m,
    {
        proof {
            assert(w_pad > 0) by (nonlinear_arith)
                requires
                    m < w_pad * h_pad / 2,
            ;
        }
        let q = m as u64 / 8;
        let j = m as u64 % 8;
        let bx = 2 * ((q / 4) % c) + q % 2;
        let by = 2 * ((q / 4) / c) + (q / 2) % 2;
        proof {
            let qq = q as int;
            let cc = c as int;
            let hb = h_pad as int / 8;
            assert(len == 32 * cc * hb) by (nonlinear_arith)
                requires
                    len == w_pad * h_pad / 2,
                    w_pad == 8 * cc,
                    h_pad == 8 * hb,
            ;
            assert(qq < 4 * cc * hb) by (nonlinear_arith)
                requires
                    qq == m / 8,
                    m < len,
                    len == w_pad * h_pad / 2,
                    w_pad == 8 * cc,
                    h_pad == 8 * hb,
                    cc >= 1,
            ;
            assert((qq / 4) / cc < hb) by (nonlinear_arith)
                requires
                    qq < 4 * cc * hb,
                    qq >= 0,
                    cc >= 1,
            ;
            assert((by * bpr + bx) * 8 + 8 <= len) by (nonlinear_arith)
                requires
                    bx == 2 * ((qq / 4) % cc) + qq % 2,
                    by == 2 * ((qq / 4) / cc) + (qq / 2) % 2,
                    (qq / 4) / cc < hb,
                    0 <= (qq / 4) % cc < cc,
                    bpr == 2 * cc,
                    len == 32 * cc * hb,
                    cc >= 1,
            ;
        }
        let base = ((by * bpr + bx) * 8) as usize;
        let b: u8 = if j == 0 {
            bc1[base + 1]
        } else if j == 1 {
            bc1[base]
        } else if j == 2 {
            bc1[base + 3]
        } else if j == 3 {
            bc1[base + 2]
        } else {
            let v = bc1[base + j as usize];
            ((v % 4) * 64 + ((v / 4) % 4) * 16 + ((v / 16) % 4) * 4 + (v / 64) % 4) as u8
        };
        out.push(b);
        m = m + 1;
    }
    proof {
        assert(out@ =~= Seq::new((w_pad * h_pad / 2) as nat, |m: int| dxt_byte(bc1@, w_pad as int, m)));
    }
    out
}

/// `rgba` (a `w × h` image) extended with transparent black to `pw × ph`.
pub open spec fn padded_image(rgba: Seq<u8>, w: int, h: int, pw: int, ph: int) -> Seq<u8> {
    Seq::new((pw * ph * 4) as nat, |k: int| sample(rgba, w, h, (k / 4) % pw, (k / 4) / pw)[k % 4])
}

fn pad_image(rgba: &[u8], w: u32, h: u32, pw: u32, ph: u32) -> (out: Vec<u8>)
    requires
        rgba@.len() == w * h * 4,
        pw * ph * 4 <= u32::MAX,
    ensures
        out@ == padded_image(rgba@, w as int, h as int, pw as int, ph as int),
{
    let n = pw as u64 * ph as u64;
    let mut out: Vec<u8> = Vec::new();
    let mut x: u32 = 0;
    let mut y: u32 = 0;
    let mut q: u64 = 0;
    let ghost img = padded_image(rgba@, w as int, h as int, pw as int, ph as int);
    while q < n
        invariant
            n == pw * ph,
            n * 4 <= u32::MAX,
            rgba@.len() == w * h * 4,
            img == padded_image(rgba@, w as int, h as int, pw as int, ph as int),
            q <= n,
            q == y * pw + x,
            q < n ==> x < pw && y < ph,
            x < pw || pw == 0,
            out@.len() == 4 * q,
            forall|k: int| 0 <= k < 4 * q ==> #[trigger] out@[k] == img[k],
        decreases n - q,
    {
        let px = sample_exec(rgba, w, h, x as u128, y as u128);
        proof {
            lemma_fundamental_div_mod_converse(q as int, pw as int, y as int, x as int);
        }
        let ghost o0 = out@;
        out.push(px[0]);
        out.push(px[1]);
        out.push(px[2]);
        out.push(px[3]);
        proof {
            assert forall|k: int| 0 <= k < 4 * (q + 1) implies #[trigger] out@[k] == img[k] by {
                if k < 4 * q {
                    assert(out@[k] == o0[k]);
                } else {
                    assert(k / 4 == q);
                    assert(k % 4 == k - 4 * q);
                }
            }
        }
        q = q + 1;
        x = x + 1;
        if x == pw {
            proof {
                assert((y + 1) * pw == y * pw + pw) by (nonlinear_arith);
            }
            x = 0;
            y = y + 1;
        }
        proof {
            if q < n {
                assert(y < ph) by (nonlinear_arith)
                    requires
                        q == y * pw + x,
                        q < pw * ph,
                        x >= 0,
                        pw > 0,
                ;
            }
        }
    }
    proof {
        assert(out@ =~= img);
    }
    out
}

/// CMP grid size of `v` pixels: padded to 4, then to 8.
pub open spec fn dxt_pad(v: int) -> int {
    pad_to(pad_to(v, 4), 8)
}

/// The CMP stream of an RGBA8 image: BC1-compress the padded image, then
/// rearrange the blocks into the GX layout.
pub open spec fn dxt_encoded(rgba: Seq<u8>, w: int, h: int) -> Seq<u8> {
    let pw = dxt_pad(w);
    let ph = dxt_pad(h);
    let pc = bc1_compress(padded_image(rgba, w, h, pw, ph), pw as usize, ph as usize);
    Seq::new((pw * ph / 2) as nat, |m: int| dxt_byte(pc, pw, m))
}

fn to_dxt(rgba: &[u8], w: u32, h: u32) -> (out: Vec<u8>)
    requires
        rgba@.len() == w * h * 4,
        encode_fits(GxTexFmt::CMP, w as int, h as int),
    ensures
        out@ == dxt_encoded(rgba@, w as int, h as int),
{
    proof {
        lemma_pad_to(w as int, 4);
        lemma_pad_to(h as int, 4);
        lemma_pad_to(pad_to(w as int, 4), 8);
        lemma_pad_to(pad_to(h as int, 4), 8);
    }
    if w == 0 || h == 0 {
        let out: Vec<u8> = Vec::new();
        proof {
            assert(dxt_pad(w as int) * dxt_pad(h as int) == 0) by (nonlinear_arith)
                requires
                    w == 0 || h == 0,
                    dxt_pad(w as int) == 0 || dxt_pad(h as int) == 0,
            ;
            assert(out@ =~= dxt_encoded(rgba@, w as int, h as int));
        }
        return out;
    }
    let pw64 = pad_exec(pad_exec(w as u64, 4), 8);
    let ph64 = pad_exec(pad_exec(h as u64, 4), 8);
    proof {
        assert(pw64 <= u32::MAX && ph64 <= u32::MAX) by (nonlinear_arith)
            requires
                pw64 * ph64 * 4 <= u32::MAX,
                pw64 >= 1,
                ph64 >= 1,
        ;
    }
    let pw = pw64 as u32;
    let ph = ph64 as u32;
    let padded = pad_image(rgba, w, h, pw, ph);
    let pc = bc1(padded.as_slice(), pw as usize, ph as usize);
    dxt_from_bc1(pc.as_slice(), pw, ph)
}

/// Decoding the CMP stream of an image gives each texel the colour that its
/// own BC1 selector picks: the BC1 block of texel `(x, y)` stores its
/// endpoints little-endian and the texel's selector in bits `2 (x % 4)` of
/// row byte `y % 4`; selector 0 yields the first endpoint, 1 the second.
pub proof fn law_dxt_decode_of_encode(rgba: Seq<u8>, w: int, h: int, pal: Seq<u8>, x: int, y: int)
    requires
        0 <= x < w,
        0 <= y < h,
    ensures
        ({
            let pw = dxt_pad(w);
            let ph = dxt_pad(h);
            let pc = bc1_compress(padded_image(rgba, w, h, pw, ph), pw as usize, ph as usize);
            let img = decoded_image(GxTexFmt::CMP, w, h, dxt_encoded(rgba, w, h), pal);
            let p = 4 * (y * w + x);
            let base = ((y / 4) * (pw / 4) + x / 4) * 8;
            let sel: u8 = (pc[base + 4 + y % 4] >> ((2 * (x % 4)) as u8)) & 3u8;
            let v0 = pc[base + 1] as int * 256 + pc[base] as int;
            let v1 = pc[base + 3] as int * 256 + pc[base + 2] as int;
            &&& sel == 0 ==> img[p] == r565_of(pc[base + 1]) && img[p + 1] == g565_of(pc[base + 1], pc[base])
                && img[p + 2] == b565_of(pc[base]) && img[p + 3] == 255
            &&& sel == 1 ==> img[p] == r565_of(pc[base + 3]) && img[p + 1] == g565_of(pc[base + 3], pc[base + 2])
                && img[p + 2] == b565_of(pc[base + 2]) && img[p + 3] == 255
            &&& sel == 2 ==> img[p + 3] == 255
            &&& sel == 3 ==> (img[p + 3] == 255 <==> v0 > v1)
        }),
{
    let pw = dxt_pad(w);
    let ph = dxt_pad(h);
    lemma_pad_to(w, 4);
    lemma_pad_to(h, 4);
    lemma_pad_to(pad_to(w, 4), 8);
    lemma_pad_to(pad_to(h, 4), 8);
    lemma_pad_to(pw, 4);
    lemma_pad_to(pw, 8);
    assert(pad_to(pw, 4) == pw);
    assert(pad_to(pw, 8) == pw);
    assert(dxt_off(x, y, w) == dxt_off(x, y, pw));
    let pc = bc1_compress(padded_image(rgba, w, h, pw, ph), pw as usize, ph as usize);
    law_dxt_layout(pc, pw, ph, x, y);
    law_dxt_selector_order(dxt_encoded(rgba, w, h), w, h, pal, x, y);
}

/// `rgba` with red and blue swapped in every pixel.
pub open spec fn swap_rb(rgba: Seq<u8>) -> Seq<u8> {
    Seq::new(
        rgba.len(),
        |k: int|
            if k % 4 == 0 && k + 2 < rgba.len() {
                rgba[k + 2]
            } else if k % 4 == 2 {
                rgba[k - 2]
            } else {
                rgba[k]
            },
    )
}

fn swap_rb_exec(rgba: &[u8]) -> (out: Vec<u8>)
    requires
        rgba@.len() % 4 == 0,
    ensures
        out@ == swap_rb(rgba@),
{
    let mut out: Vec<u8> = Vec::new();
    let mut k: usize = 0;
    while k < rgba.len()
        invariant
            rgba@.len() % 4 == 0,
            k <= rgba@.len(),
            out@.len() == k,
            forall|j: int| 0 <= j < k ==> #[trigger] out@[j] == swap_rb(rgba@)[j],
        decreases rgba@.len() - k,
    {
        let v = if k % 4 == 0 && k + 2 < rgba.len() {
            rgba[k + 2]
        } else if k % 4 == 2 {
            rgba[k - 2]
        } else {
            rgba[k]
        };
        out.push(v);
        k = k + 1;
    }
    proof {
        assert(out@ =~= swap_rb(rgba@));
    }
    out
}

/// The stream `encode_image_with_options` produces.
pub open spec fn encoded(format: GxTexFmt, rgba: Seq<u8>, w: int, h: int, options: EncodeOptions) -> Seq<u8> {
    if format is CMP {
        dxt_encoded(rgba, w, h)
    } else if format is RGB5A3 && options.swap_rb_for_rgb5a3 {
        encoded_image(format, swap_rb(rgba), w, h)
    } else {
        encoded_image(format, rgba, w, h)
    }
}

/// Why `encode_image` refuses a paletted format.
pub const PALETTED_REFUSAL: &'static str = "encode_image: paletted formats (CI4 / CI8 / CI14X2) need encode_paletted_image";

/// The formats `encode_image` writes.
pub open spec fn encodable(format: GxTexFmt) -> bool {
    mechanical(format) || format is CMP
}

/// Encode a `width × height` RGBA8 image into `format`; the grid is padded
/// to whole tiles with transparent black.  The paletted formats are refused
/// (they go through `encode_paletted_image`), and so are unknown formats and
/// a buffer that is not `4 * width * height` bytes.
pub fn encode_image_with_options(
    format: GxTexFmt,
    width: u32,
    height: u32,
    rgba: &[u8],
    options: EncodeOptions,
) -> (r: Result<Vec<u8>>)
    requires
        rgba@.len() == width * height * 4 && encodable(format) ==> encode_fits(
            format,
            width as int,
            height as int,
        ),
    ensures
        r is Ok <==> rgba@.len() == width * height * 4 && encodable(format),
        r matches Err(e) ==> (e matches HsdError::Malformed { offset, .. } && offset == 0),
        r matches Ok(v) ==> v@ == encoded(format, rgba@, width as int, height as int, options),
        rgba@.len() == width * height * 4 && (format is CI4 || format is CI8 || format is CI14X2) ==> (r matches Err(
            HsdError::Malformed { context, .. },
        ) && context@ == PALETTED_REFUSAL@),
{
    proof {
        assert(width as int * height as int <= 0x1_0000_0000 * 0x1_0000_0000) by (nonlinear_arith)
            requires
                width <= u32::MAX,
                height <= u32::MAX,
        ;
    }
    let area: u128 = width as u128 * height as u128;
    if rgba.len() as u128 != area * 4 {
        return Err(HsdError::malformed(0, "encode_image: RGBA buffer size mismatch"));
    }
    match format {
        GxTexFmt::CMP => Ok(to_dxt(rgba, width, height)),
        GxTexFmt::RGB5A3 => {
            if options.swap_rb_for_rgb5a3 {
                let swapped = swap_rb_exec(rgba);
                Ok(encode_mechanical(format, swapped.as_slice(), width, height))
            } else {
                Ok(encode_mechanical(format, rgba, width, height))
            }
        },
        GxTexFmt::RGBA8 | GxTexFmt::RGB565 | GxTexFmt::I4 | GxTexFmt::I8 | GxTexFmt::IA4
        | GxTexFmt::IA8 => Ok(encode_mechanical(format, rgba, width, height)),
        GxTexFmt::CI4 | GxTexFmt::CI8 | GxTexFmt::CI14X2 => Err(HsdError::malformed(0, PALETTED_REFUSAL)),
        GxTexFmt::Unknown(_) => Err(HsdError::malformed(0, "encode_image: unknown texture format")),
    }
}

/// `encode_image_with_options` with the default options.
pub fn encode_image(format: GxTexFmt, width: u32, height: u32, rgba: &[u8]) -> (r: Result<Vec<u8>>)
    requires
        rgba@.len() == width * height * 4 && encodable(format) ==> encode_fits(
            format,
            width as int,
            height as int,
        ),
    ensures
        r is Ok <==> rgba@.len() == width * height * 4 && encodable(format),
        r matches Err(e) ==> (e matches HsdError::Malformed { offset, .. } && offset == 0),
        rgba@.len() == width * height * 4 && (format is CI4 || format is CI8 || format is CI14X2) ==> (r matches Err(
            HsdError::Malformed { context, .. },
        ) && context@ == PALETTED_REFUSAL@),
        r matches Ok(v) ==> v@ == encoded(
            format,
            rgba@,
            width as int,
            height as int,
            EncodeOptions { swap_rb_for_rgb5a3: false },
        ),
{
    encode_image_with_options(format, width, height, rgba, EncodeOptions::default())
}

// ---------------------------------------------------------------------
// Encode / decode round trip
// ---------------------------------------------------------------------

/// What a mechanical format keeps of the colour `px`: each channel
/// quantised by the encoder and expanded back by the decoder.
pub open spec fn snapped(format: GxTexFmt, px: Seq<u8>) -> Seq<u8> {
    match format {
        GxTexFmt::I4 => {
            let v = scale(quant(lum(px), 15), 15);
            seq![v, v, v, v]
        },
        GxTexFmt::I8 => seq![lum(px) as u8, lum(px) as u8, lum(px) as u8, lum(px) as u8],
        GxTexFmt::IA4 => {
            let v = scale(quant(lum(px), 15), 15);
            seq![v, v, v, scale(quant(px[3] as int, 15), 15)]
        },
        GxTexFmt::IA8 => seq![lum(px) as u8, lum(px) as u8, lum(px) as u8, px[3]],
        GxTexFmt::RGB565 => seq![
            (quant(px[0] as int, 31) * 8) as u8,
            (quant(px[1] as int, 63) * 4) as u8,
            (quant(px[2] as int, 31) * 8) as u8,
            255u8,
        ],
        GxTexFmt::RGB5A3 => if px[3] == 255 {
            seq![
                scale(quant(px[0] as int, 31), 31),
                scale(quant(px[1] as int, 31), 31),
                scale(quant(px[2] as int, 31), 31),
                255u8,
            ]
        } else {
            seq![
                scale(quant(px[0] as int, 15), 15),
                scale(quant(px[1] as int, 15), 15),
                scale(quant(px[2] as int, 15), 15),
                scale(quant(px[3] as int, 7), 7),
            ]
        },
        _ => px,
    }
}

/// The image `rgba` as `format` keeps it.
pub open spec fn snapped_image(format: GxTexFmt, rgba: Seq<u8>, w: int, h: int) -> Seq<u8> {
    Seq::new(
        (w * h * 4) as nat,
        |k: int| snapped(format, sample(rgba, w, h, (k / 4) % w, (k / 4) / w))[k % 4],
    )
}

proof fn lemma_quant_bound(c: int, levels: int)
    requires
        0 <= c <= 255,
        1 <= levels <= 63,
    ensures
        0 <= quant(c, levels) <= levels,
{
    assert((c * levels + 127) / 255 <= levels) by (nonlinear_arith)
        requires
            0 <= c <= 255,
            levels >= 1,
    ;
    assert((c * levels + 127) / 255 >= 0) by (nonlinear_arith)
        requires
            0 <= c <= 255,
            levels >= 1,
    ;
}

proof fn lemma_lum_bound(px: Seq<u8>)
    requires
        px.len() == 4,
    ensures
        0 <= lum(px) <= 255,
{
    assert(0 <= (299 * px[0] + 587 * px[1] + 114 * px[2] + 500) / 1000 <= 255) by (nonlinear_arith)
        requires
            0 <= px[0] <= 255,
            0 <= px[1] <= 255,
            0 <= px[2] <= 255,
    ;
}

/// The three fields of `hi * m2 + mid * m1 + lo` come back out.
proof fn lemma_fields(lo: int, mid: int, hi: int, m1: int, m2: int, top: int)
    requires
        0 <= lo < m1,
        0 <= mid,
        mid * m1 < m2,
        m2 % m1 == 0,
        0 <= hi < top,
        m1 > 0,
    ensures
        (hi * m2 + mid * m1 + lo) % m1 == lo,
        ((hi * m2 + mid * m1 + lo) / m1) % (m2 / m1) == mid,
        ((hi * m2 + mid * m1 + lo) / m2) % top == hi,
        (hi * m2 + mid * m1 + lo) / m2 == hi,
{
    let v = hi * m2 + mid * m1 + lo;
    let k = m2 / m1;
    vstd::arithmetic::div_mod::lemma_fundamental_div_mod(m2, m1);
    assert(m2 == k * m1) by (nonlinear_arith)
        requires
            m2 == m1 * k + 0,
    ;
    assert(v == (hi * k + mid) * m1 + lo) by (nonlinear_arith)
        requires
            v == hi * m2 + mid * m1 + lo,
            m2 == k * m1,
    ;
    assert(hi * k + mid >= 0) by (nonlinear_arith)
        requires
            hi >= 0,
            mid >= 0,
            k >= 0,
    ;
    lemma_fundamental_div_mod_converse(v, m1, hi * k + mid, lo);
    assert(mid < k) by (nonlinear_arith)
        requires
            mid * m1 < m2,
            m2 == k * m1,
            m1 > 0,
    ;
    lemma_fundamental_div_mod_converse(hi * k + mid, k, hi, mid);
    assert((mid + 1) * m1 <= k * m1) by (nonlinear_arith)
        requires
            mid + 1 <= k,
            m1 > 0,
    ;
    assert(mid * m1 + lo < m2) by (nonlinear_arith)
        requires
            (mid + 1) * m1 <= k * m1,
            lo < m1,
            m2 == k * m1,
    ;
    assert(mid * m1 + lo >= 0) by (nonlinear_arith)
        requires
            mid >= 0,
            lo >= 0,
            m1 > 0,
    ;
    lemma_fundamental_div_mod_converse(v, m2, hi, mid * m1 + lo);
    lemma_fundamental_div_mod_converse(hi, top, 0, hi);
}

/// The texel the encoder writes at the decoder's position of `(x, y)` is
/// pixel `(x, y)`.
proof fn lemma_texel_px(format: GxTexFmt, rgba: Seq<u8>, w: int, h: int, x: int, y: int)
    requires
        0 <= x < w,
        0 <= y < h,
    ensures
        texel_px(format, rgba, w, h, texel(format, w, x, y)) == sample(rgba, w, h, x, y),
        0 <= texel(format, w, x, y) < enc_pw(format, w) * enc_ph(format, h),
        enc_pw(format, w) % tile_w(format) == 0,
        enc_ph(format, h) % tile_h(format) == 0,
        enc_pw(format, w) >= 0,
        enc_ph(format, h) >= 0,
{
    lemma_pad_to(w, tile_w(format));
    lemma_pad_to(h, tile_h(format));
    lemma_untile_tiled(
        x,
        y,
        enc_pw(format, w),
        enc_ph(format, h),
        tile_w(format),
        tile_h(format),
    );
}

/// A two-byte texel reads back as the value written.
proof fn lemma_be16_back(format: GxTexFmt, rgba: Seq<u8>, w: int, h: int, t: int)
    requires
        format is IA8 || format is RGB565 || format is RGB5A3,
        0 <= t,
        2 * t + 1 < encoded_len(format, w, h),
        0 <= enc16(format, texel_px(format, rgba, w, h, t)) < 0x1_0000,
    ensures
        be16_at(encoded_image(format, rgba, w, h), 2 * t) as int == enc16(
            format,
            texel_px(format, rgba, w, h, t),
        ),
{
    let raw = encoded_image(format, rgba, w, h);
    let v = enc16(format, texel_px(format, rgba, w, h, t));
    assert((2 * t) / 2 == t && (2 * t) % 2 == 0);
    assert((2 * t + 1) / 2 == t && (2 * t + 1) % 2 == 1);
    assert(raw[2 * t] == (v / 256) as u8);
    assert(raw[2 * t + 1] == (v % 256) as u8);
    assert((v / 256) * 256 + v % 256 == v) by (nonlinear_arith)
        requires
            v >= 0,
    ;
}

proof fn lemma_sample_len(rgba: Seq<u8>, w: int, h: int, x: int, y: int)
    requires
        rgba.len() == w * h * 4,
    ensures
        sample(rgba, w, h, x, y).len() == 4,
        0 <= lum(sample(rgba, w, h, x, y)) <= 255,
{
    if 0 <= x < w && 0 <= y < h {
        assert(y * w + x < w * h) by (nonlinear_arith)
            requires
                0 <= x < w,
                0 <= y < h,
        ;
        assert(y * w + x >= 0) by (nonlinear_arith)
            requires
                0 <= x < w,
                0 <= y < h,
        ;
    }
    lemma_lum_bound(sample(rgba, w, h, x, y));
}

proof fn lemma_px_facts(format: GxTexFmt, rgba: Seq<u8>, w: int, h: int, x: int, y: int)
    requires
        rgba.len() == w * h * 4,
        0 <= x < w,
        0 <= y < h,
    ensures
        sample(rgba, w, h, x, y).len() == 4,
        0 <= lum(sample(rgba, w, h, x, y)) <= 255,
{
    assert(y * w + x < w * h) by (nonlinear_arith)
        requires
            0 <= x < w,
            0 <= y < h,
    ;
    assert(y * w + x >= 0) by (nonlinear_arith)
        requires
            0 <= x < w,
            0 <= y < h,
    ;
    lemma_lum_bound(sample(rgba, w, h, x, y));
}

proof fn lemma_rt_i4(rgba: Seq<u8>, w: int, h: int, pal: Seq<u8>, x: int, y: int)
    requires
        w >= 8 && h >= 8,
        rgba.len() == w * h * 4,
        0 <= x < w,
        0 <= y < h,
    ensures
        decoded_px(GxTexFmt::I4, w, h, encoded_image(GxTexFmt::I4, rgba, w, h), pal, x, y)
            == snapped(GxTexFmt::I4, sample(rgba, w, h, x, y)),
{
    let format = GxTexFmt::I4;
    let raw = encoded_image(format, rgba, w, h);
    let t = texel(format, w, x, y);
    let px = sample(rgba, w, h, x, y);
    lemma_texel_px(format, rgba, w, h, x, y);
    lemma_px_facts(format, rgba, w, h, x, y);
    lemma_half_bound(t, enc_pw(format, w), enc_ph(format, h));
    let m = t / 2;
    let p0 = texel_px(format, rgba, w, h, 2 * m);
    let p1 = texel_px(format, rgba, w, h, 2 * m + 1);
    let hi = quant(lum(p0), 15);
    let lo = quant(lum(p1), 15);
    let pw = enc_pw(format, w);
    lemma_sample_len(rgba, w, h, untile_x(2 * m, pw, 8, 8), untile_y(2 * m, pw, 8, 8));
    lemma_sample_len(rgba, w, h, untile_x(2 * m + 1, pw, 8, 8), untile_y(2 * m + 1, pw, 8, 8));
    lemma_quant_bound(lum(p0), 15);
    lemma_quant_bound(lum(p1), 15);
    assert(raw[m] == (hi * 16 + lo) as u8);
    lemma_fundamental_div_mod_converse(hi * 16 + lo, 16, hi, lo);
    if t % 2 == 0 {
        assert(2 * m == t);
    } else {
        assert(2 * m + 1 == t);
    }
    assert(decoded_px(format, w, h, raw, pal, x, y) =~= snapped(format, px));
}

proof fn lemma_rt_byte(format: GxTexFmt, rgba: Seq<u8>, w: int, h: int, pal: Seq<u8>, x: int, y: int)
    requires
        format is I8 || format is IA4,
        rgba.len() == w * h * 4,
        0 <= x < w,
        0 <= y < h,
    ensures
        decoded_px(format, w, h, encoded_image(format, rgba, w, h), pal, x, y) == snapped(
            format,
            sample(rgba, w, h, x, y),
        ),
{
    let raw = encoded_image(format, rgba, w, h);
    let t = texel(format, w, x, y);
    let px = sample(rgba, w, h, x, y);
    lemma_texel_px(format, rgba, w, h, x, y);
    lemma_px_facts(format, rgba, w, h, x, y);
    lemma_quant_bound(px[3] as int, 15);
    lemma_quant_bound(lum(px), 15);
    if format is IA4 {
        let qa = quant(px[3] as int, 15);
        let ql = quant(lum(px), 15);
        assert(raw[t] == (qa * 16 + ql) as u8);
        lemma_fundamental_div_mod_converse(qa * 16 + ql, 16, qa, ql);
    } else {
        assert(raw[t] == lum(px) as u8);
    }
    assert(decoded_px(format, w, h, raw, pal, x, y) =~= snapped(format, px));
}

proof fn lemma_rt_16(format: GxTexFmt, rgba: Seq<u8>, w: int, h: int, pal: Seq<u8>, x: int, y: int)
    requires
        format is IA8 || format is RGB565 || format is RGB5A3,
        rgba.len() == w * h * 4,
        0 <= x < w,
        0 <= y < h,
    ensures
        decoded_px(format, w, h, encoded_image(format, rgba, w, h), pal, x, y) == snapped(
            format,
            sample(rgba, w, h, x, y),
        ),
{
    let raw = encoded_image(format, rgba, w, h);
    let t = texel(format, w, x, y);
    let px = sample(rgba, w, h, x, y);
    lemma_texel_px(format, rgba, w, h, x, y);
    lemma_px_facts(format, rgba, w, h, x, y);
    lemma_tile_bound(t, enc_pw(format, w), enc_ph(format, h));
    lemma_quant_bound(px[0] as int, 31);
    lemma_quant_bound(px[1] as int, 31);
    lemma_quant_bound(px[2] as int, 31);
    lemma_quant_bound(px[1] as int, 63);
    lemma_quant_bound(px[0] as int, 15);
    lemma_quant_bound(px[1] as int, 15);
    lemma_quant_bound(px[2] as int, 15);
    lemma_quant_bound(px[3] as int, 7);
    lemma_be16_back(format, rgba, w, h, t);
    match format {
        GxTexFmt::IA8 => {
            let v = px[3] as int * 256 + lum(px);
            lemma_fundamental_div_mod_converse(v, 256, px[3] as int, lum(px));
        },
        GxTexFmt::RGB565 => {
            let r = quant(px[0] as int, 31);
            let g = quant(px[1] as int, 63);
            let b = quant(px[2] as int, 31);
            lemma_fields(r, g, b, 32, 2048, 32);
        },
        _ => {
            if px[3] == 255 {
                let r = quant(px[0] as int, 31);
                let g = quant(px[1] as int, 31);
                let b = quant(px[2] as int, 31);
                lemma_fields(r, g, 32 + b, 32, 1024, 64);
                lemma_fundamental_div_mod_converse(32 + b, 32, 1, b);
                assert(0x8000 + b * 1024 + g * 32 + r == (32 + b) * 1024 + g * 32 + r);
            } else {
                let r = quant(px[0] as int, 15);
                let g = quant(px[1] as int, 15);
                let b = quant(px[2] as int, 15);
                let a = quant(px[3] as int, 7);
                let v = a * 4096 + b * 256 + g * 16 + r;
                assert(v == (a * 16 + b) * 256 + g * 16 + r);
                lemma_fields(r, g, a * 16 + b, 16, 256, 128);
                lemma_fundamental_div_mod_converse(a * 16 + b, 16, a, b);
                lemma_fundamental_div_mod_converse(v, 4096, a, b * 256 + g * 16 + r);
                lemma_fundamental_div_mod_converse(a, 8, 0, a);
            }
        },
    }
    assert(decoded_px(format, w, h, raw, pal, x, y) =~= snapped(format, px));
}

/// The four bytes of an RGBA8 texel in the stream.
proof fn lemma_rgba8_bytes(rgba: Seq<u8>, w: int, h: int, t: int)
    requires
        0 <= t,
        64 * (t / 16) + 64 <= encoded_len(GxTexFmt::RGBA8, w, h),
    ensures
        ({
            let raw = encoded_image(GxTexFmt::RGBA8, rgba, w, h);
            let px = texel_px(GxTexFmt::RGBA8, rgba, w, h, t);
            let m0 = 64 * (t / 16) + 2 * (t % 16);
            &&& raw[m0] == px[3]
            &&& raw[m0 + 1] == px[0]
            &&& raw[m0 + 32] == px[1]
            &&& raw[m0 + 33] == px[2]
        }),
{
    let k = t / 16;
    let r = t % 16;
    assert(16 * k + r == t);
    lemma_fundamental_div_mod_converse(64 * k + 2 * r, 64, k, 2 * r);
    lemma_fundamental_div_mod_converse(64 * k + 2 * r + 1, 64, k, 2 * r + 1);
    lemma_fundamental_div_mod_converse(64 * k + 2 * r + 32, 64, k, 32 + 2 * r);
    lemma_fundamental_div_mod_converse(64 * k + 2 * r + 33, 64, k, 33 + 2 * r);
    assert((2 * r) % 32 / 2 == r);
    assert((2 * r + 1) % 32 / 2 == r);
    assert((32 + 2 * r) % 32 / 2 == r);
    assert((33 + 2 * r) % 32 / 2 == r);
}

/// An RGBA8 texel reads back as written.
proof fn lemma_rgba8_texel(rgba: Seq<u8>, w: int, h: int, t: int)
    requires
        rgba.len() == w * h * 4,
        0 <= t,
        64 * (t / 16) + 64 <= encoded_len(GxTexFmt::RGBA8, w, h),
    ensures
        rgba8_px(encoded_image(GxTexFmt::RGBA8, rgba, w, h), t) == texel_px(
            GxTexFmt::RGBA8,
            rgba,
            w,
            h,
            t,
        ),
{
    let format = GxTexFmt::RGBA8;
    let raw = encoded_image(format, rgba, w, h);
    let px = texel_px(format, rgba, w, h, t);
    let pw = enc_pw(format, w);
    lemma_sample_len(rgba, w, h, untile_x(t, pw, 4, 4), untile_y(t, pw, 4, 4));
    lemma_rgba8_bytes(rgba, w, h, t);
    let m0 = 64 * (t / 16) + 2 * (t % 16);
    let a = raw[m0];
    let rr = raw[m0 + 1];
    let g = raw[m0 + 32];
    let b = raw[m0 + 33];
    let v1 = a as int * 256 + rr as int;
    let v2 = g as int * 256 + b as int;
    assert(be16_at(raw, m0) as int == v1);
    assert(be16_at(raw, m0 + 32) as int == v2);
    lemma_fundamental_div_mod_converse(v1, 256, a as int, rr as int);
    lemma_fundamental_div_mod_converse(v2, 256, g as int, b as int);
    assert(rgba8_px(raw, t) =~= px);
}

proof fn lemma_rt_rgba8(rgba: Seq<u8>, w: int, h: int, pal: Seq<u8>, x: int, y: int)
    requires
        rgba.len() == w * h * 4,
        0 <= x < w,
        0 <= y < h,
    ensures
        decoded_px(GxTexFmt::RGBA8, w, h, encoded_image(GxTexFmt::RGBA8, rgba, w, h), pal, x, y)
            == snapped(GxTexFmt::RGBA8, sample(rgba, w, h, x, y)),
{
    let format = GxTexFmt::RGBA8;
    let t = texel(format, w, x, y);
    lemma_texel_px(format, rgba, w, h, x, y);
    lemma_tile_bound(t, enc_pw(format, w), enc_ph(format, h));
    lemma_rgba8_texel(rgba, w, h, t);
}

/// Encoding then decoding one pixel of a mechanical format yields the pixel
/// as the format keeps it.
pub proof fn lemma_roundtrip_px(format: GxTexFmt, rgba: Seq<u8>, w: int, h: int, pal: Seq<u8>, x: int, y: int)
    requires
        mechanical(format),
        format is I4 ==> w >= 8 && h >= 8,
        rgba.len() == w * h * 4,
        0 <= x < w,
        0 <= y < h,
    ensures
        decoded_px(format, w, h, encoded_image(format, rgba, w, h), pal, x, y) == snapped(
            format,
            sample(rgba, w, h, x, y),
        ),
{
    match format {
        GxTexFmt::I4 => lemma_rt_i4(rgba, w, h, pal, x, y),
        GxTexFmt::I8 | GxTexFmt::IA4 => lemma_rt_byte(format, rgba, w, h, pal, x, y),
        GxTexFmt::IA8 | GxTexFmt::RGB565 | GxTexFmt::RGB5A3 => lemma_rt_16(format, rgba, w, h, pal, x, y),
        GxTexFmt::RGBA8 => lemma_rt_rgba8(rgba, w, h, pal, x, y),
        _ => {},
    }
}

/// Encoding an image into a mechanical format and decoding the result gives
/// back every pixel as the format keeps it: RGBA8 exactly, RGB565 and RGB5A3
/// snapped to their channel grids, the intensity formats as luminance.
pub proof fn law_encode_then_decode(format: GxTexFmt, rgba: Seq<u8>, w: u32, h: u32, pal: Seq<u8>)
    requires
        mechanical(format),
        format is I4 ==> w >= 8 && h >= 8,
        rgba.len() == w * h * 4,
    ensures
        decoded_image(format, w as int, h as int, encoded_image(format, rgba, w as int, h as int), pal)
            == snapped_image(format, rgba, w as int, h as int),
{
    let raw = encoded_image(format, rgba, w as int, h as int);
    let a = decoded_image(format, w as int, h as int, raw, pal);
    let b = snapped_image(format, rgba, w as int, h as int);
    assert forall|k: int| 0 <= k < a.len() implies a[k] == b[k] by {
        let q = k / 4;
        assert(0 <= q < w * h) by (nonlinear_arith)
            requires
                0 <= k < w * h * 4,
                q == k / 4,
        ;
        let x = q % (w as int);
        let y = q / (w as int);
        assert(0 <= y < h) by (nonlinear_arith)
            requires
                0 <= q < w * h,
                y == q / (w as int),
                w > 0,
        ;
        lemma_roundtrip_px(format, rgba, w as int, h as int, pal, x, y);
    }
    assert(a =~= b);
}

/// What `encode_image` returns for a mechanical format and what
/// `decode_image` returns for that stream: decoding gives back every pixel
/// as the format keeps it.  RGBA8 comes back byte for byte, and its stream
/// has the aligned size when the height is a multiple of 4.
pub proof fn law_encode_image_then_decode_image(
    format: GxTexFmt,
    rgba: Seq<u8>,
    w: u32,
    h: u32,
    pal: Seq<u8>,
    enc: Seq<u8>,
    dec: Seq<u8>,
)
    requires
        mechanical(format),
        format is I4 ==> w >= 8 && h >= 8,
        rgba.len() == w * h * 4,
        enc == encoded(format, rgba, w as int, h as int, EncodeOptions { swap_rb_for_rgb5a3: false }),
        dec == decoded_image(format, w as int, h as int, zero_pad(enc, read_need(format, w as int, h as int)), pal),
    ensures
        dec == snapped_image(format, rgba, w as int, h as int),
        format is RGBA8 ==> dec == rgba,
        format is RGBA8 && h % 4 == 0 ==> enc.len() == image_size_spec(format, w, h),
{
    assert(enc == encoded_image(format, rgba, w as int, h as int));
    assert(enc.len() == encoded_len(format, w as int, h as int));
    assert(enc.len() >= read_need(format, w as int, h as int));
    assert(zero_pad(enc, read_need(format, w as int, h as int)) == enc);
    law_encode_then_decode(format, rgba, w, h, pal);
    if format is RGBA8 {
        let b = snapped_image(format, rgba, w as int, h as int);
        assert forall|k: int| 0 <= k < rgba.len() implies b[k] == rgba[k] by {
            let q = k / 4;
            assert(0 <= q < w * h) by (nonlinear_arith)
                requires
                    0 <= k < w * h * 4,
                    q == k / 4,
            ;
            let x = q % (w as int);
            let y = q / (w as int);
            assert(0 <= y < h && q == y * w + x && 0 <= x < w) by (nonlinear_arith)
                requires
                    0 <= q < w * h,
                    y == q / (w as int),
                    x == q % (w as int),
                    w > 0,
            ;
            assert(4 * (y * w + x) + k % 4 == k);
        }
        assert(b =~= rgba);
        if h % 4 == 0 {
            assert(pad_to(h as int, 4) == h);
        }
    }
}

// ---------------------------------------------------------------------
// Paletted formats
// ---------------------------------------------------------------------

/// An image encoded to CI4, CI8 or CI14X2, with its palette.
#[derive(Debug)]
pub struct PalettedImage {
    /// The index stream, in the tile layout of the format.
    pub image: Vec<u8>,
    /// The palette colours, RGBA.
    pub palette_rgba: Vec<[u8; 4]>,
    /// The palette as TLUT entries, 2 bytes each, big-endian.
    pub palette_bytes: Vec<u8>,
}

/// Squared RGBA distance.
pub open spec fn dist(a: [u8; 4], b: Seq<u8>) -> int {
    (a[0] - b[0]) * (a[0] - b[0]) + (a[1] - b[1]) * (a[1] - b[1]) + (a[2] - b[2]) * (a[2] - b[2]) + (
    a[3] - b[3]) * (a[3] - b[3])
}

/// Index of the first entry among `pal[..n]` nearest to `px`.
pub open spec fn nearest_in(pal: Seq<[u8; 4]>, px: Seq<u8>, n: nat) -> int
    decreases n,
{
    if n <= 1 {
        0
    } else {
        let b = nearest_in(pal, px, (n - 1) as nat);
        if dist(pal[n - 1], px) < dist(pal[b], px) {
            n - 1
        } else {
            b
        }
    }
}

/// Index of the first palette entry nearest to `px`.
pub open spec fn nearest(pal: Seq<[u8; 4]>, px: Seq<u8>) -> int {
    nearest_in(pal, px, pal.len())
}

/// `nearest_in` names an entry at least as close as any other, and closer
/// than every entry before it.
pub proof fn lemma_nearest_in(pal: Seq<[u8; 4]>, px: Seq<u8>, n: nat)
    requires
        1 <= n <= pal.len(),
    ensures
        0 <= nearest_in(pal, px, n) < n,
        forall|j: int| 0 <= j < n ==> dist(pal[nearest_in(pal, px, n)], px) <= #[trigger] dist(pal[j], px),
        forall|j: int|
            0 <= j < nearest_in(pal, px, n) ==> dist(pal[nearest_in(pal, px, n)], px) < #[trigger] dist(
                pal[j],
                px,
            ),
    decreases n,
{
    if n > 1 {
        lemma_nearest_in(pal, px, (n - 1) as nat);
    }
}

fn dist_exec(a: &[u8; 4], b: &[u8; 4]) -> (d: u32)
    ensures
        d == dist(*a, b@),
{
    let d0 = if a[0] > b[0] { a[0] - b[0] } else { b[0] - a[0] } as u32;
    let d1 = if a[1] > b[1] { a[1] - b[1] } else { b[1] - a[1] } as u32;
    let d2 = if a[2] > b[2] { a[2] - b[2] } else { b[2] - a[2] } as u32;
    let d3 = if a[3] > b[3] { a[3] - b[3] } else { b[3] - a[3] } as u32;
    proof {
        assert(d0 * d0 == (a[0] - b[0]) * (a[0] - b[0])) by (nonlinear_arith)
            requires
                d0 == a[0] - b[0] || d0 == b[0] - a[0],
        ;
        assert(d1 * d1 == (a[1] - b[1]) * (a[1] - b[1])) by (nonlinear_arith)
            requires
                d1 == a[1] - b[1] || d1 == b[1] - a[1],
        ;
        assert(d2 * d2 == (a[2] - b[2]) * (a[2] - b[2])) by (nonlinear_arith)
            requires
                d2 == a[2] - b[2] || d2 == b[2] - a[2],
        ;
        assert(d3 * d3 == (a[3] - b[3]) * (a[3] - b[3])) by (nonlinear_arith)
            requires
                d3 == a[3] - b[3] || d3 == b[3] - a[3],
        ;
        assert(d0 * d0 <= 65025 && d1 * d1 <= 65025 && d2 * d2 <= 65025 && d3 * d3 <= 65025) by (nonlinear_arith)
            requires
                d0 <= 255,
                d1 <= 255,
                d2 <= 255,
                d3 <= 255,
        ;
    }
    d0 * d0 + d1 * d1 + d2 * d2 + d3 * d3
}

/// Index of the first palette entry nearest to `px`.
fn nearest_exec(pal: &Vec<[u8; 4]>, px: &[u8; 4]) -> (i: usize)
    requires
        pal@.len() >= 1,
    ensures
        i == nearest(pal@, px@),
        i < pal@.len(),
{
    let mut best: usize = 0;
    let mut best_d = dist_exec(&pal[0], px);
    let mut k: usize = 1;
    while k < pal.len()
        invariant
            1 <= k <= pal@.len(),
            best == nearest_in(pal@, px@, k as nat),
            best < k,
            best_d == dist(pal@[best as int], px@),
        decreases pal@.len() - k,
    {
        let d = dist_exec(&pal[k], px);
        if d < best_d {
            best = k;
            best_d = d;
        }
        k = k + 1;
    }
    best
}

/// Colour of pixel `i` of an RGBA8 buffer.
pub open spec fn pixel(rgba: Seq<u8>, i: int) -> [u8; 4] {
    [rgba[4 * i], rgba[4 * i + 1], rgba[4 * i + 2], rgba[4 * i + 3]]
}

fn pixel_exec(rgba: &[u8], i: usize) -> (c: [u8; 4])
    requires
        4 * i + 4 <= rgba@.len(),
    ensures
        c == pixel(rgba@, i as int),
{
    let n = rgba.len();
    let p = 4 * i;
    [rgba[p], rgba[p + 1], rgba[p + 2], rgba[p + 3]]
}

/// `c` is the colour of some pixel of `rgba`.
pub open spec fn is_pixel_of(rgba: Seq<u8>, c: [u8; 4]) -> bool {
    exists|k: int| 0 <= k < rgba.len() / 4 && #[trigger] pixel(rgba, k) == c
}


/// Some `limit` colours cover every pixel of `rgba`.
pub open spec fn fits_in(rgba: Seq<u8>, limit: int) -> bool {
    exists|v: Seq<[u8; 4]>|
        #![trigger v.len()]
        v.len() <= limit && forall|i: int|
            0 <= i < rgba.len() / 4 ==> v.contains(#[trigger] pixel(rgba, i))
}

/// `limit + 1` distinct pixel colours cannot be covered by `limit` colours.
proof fn lemma_pigeon(rgba: Seq<u8>, limit: int, d: Seq<[u8; 4]>)
    requires
        d.len() == limit + 1,
        d.no_duplicates(),
        forall|j: int| 0 <= j < d.len() ==> is_pixel_of(rgba, #[trigger] d[j]),
    ensures
        !fits_in(rgba, limit),
{
    broadcast use vstd::seq_lib::seq_to_set_is_finite;

    if fits_in(rgba, limit) {
        let v = choose|v: Seq<[u8; 4]>|
            #![trigger v.len()]
            v.len() <= limit && forall|i: int|
                0 <= i < rgba.len() / 4 ==> v.contains(#[trigger] pixel(rgba, i));
        assert forall|x: [u8; 4]| d.to_set().contains(x) implies v.to_set().contains(x) by {
            let j = choose|j: int| 0 <= j < d.len() && d[j] == x;
            assert(is_pixel_of(rgba, d[j]));
            let k = choose|k: int| 0 <= k < rgba.len() / 4 && #[trigger] pixel(rgba, k) == d[j];
            assert(v.contains(pixel(rgba, k)));
        }
        vstd::set_lib::lemma_len_subset(d.to_set(), v.to_set());
        d.unique_seq_to_set();
        v.lemma_cardinality_of_set();
    }
}

/// The distinct colours of `rgba` in order of first appearance; `None` when
/// there are more than `limit`.
fn distinct_colors(rgba: &[u8], limit: usize) -> (r: Option<Vec<[u8; 4]>>)
    requires
        rgba@.len() % 4 == 0,
    ensures
        r matches Some(v) ==> v@.len() <= limit && v@.no_duplicates() && (forall|i: int|
            0 <= i < rgba@.len() / 4 ==> v@.contains(#[trigger] pixel(rgba@, i))) && (forall|j: int|
            0 <= j < v@.len() ==> is_pixel_of(rgba@, #[trigger] v@[j])),
        r is None ==> exists|d: Seq<[u8; 4]>|
            #![trigger d.len()]
            d.len() == limit + 1 && d.no_duplicates() && forall|j: int|
                0 <= j < d.len() ==> is_pixel_of(rgba@, #[trigger] d[j]),
{
    let n = rgba.len() / 4;
    let mut out: Vec<[u8; 4]> = Vec::new();
    let mut i: usize = 0;
    while i < n
        invariant
            n == rgba@.len() / 4,
            rgba@.len() % 4 == 0,
            i <= n,
            out@.len() <= limit,
            out@.no_duplicates(),
            forall|k: int| 0 <= k < i ==> out@.contains(#[trigger] pixel(rgba@, k)),
            forall|j: int| 0 <= j < out@.len() ==> is_pixel_of(rgba@, #[trigger] out@[j]),
        decreases n - i,
    {
        let c = pixel_exec(rgba, i);
        let mut found = false;
        let mut j: usize = 0;
        while j < out.len() && !found
            invariant
                j <= out@.len(),
                found ==> out@.contains(c),
                !found ==> forall|q: int| 0 <= q < j ==> out@[q] != c,
            decreases out@.len() - j + (if found { 0int } else { 1int }),
        {
            let e = out[j];
            if e[0] == c[0] && e[1] == c[1] && e[2] == c[2] && e[3] == c[3] {
                proof {
                    assert(e@ =~= c@);
                    assert(out@[j as int] == c);
                }
                found = true;
            } else {
                proof {
                    if out@[j as int] == c {
                        assert(e[0] == c[0]);
                    }
                }
                j = j + 1;
            }
        }
        if !found {
            if out.len() >= limit {
                proof {
                    let d = out@.push(c);
                    assert(out@.len() == limit);
                    assert(d[out@.len() as int] == c);
                    assert forall|a: int, b: int| 0 <= a < d.len() && 0 <= b < d.len() && a != b implies d[a] != d[b] by {
                        if a < out@.len() && b < out@.len() {
                            assert(d[a] == out@[a] && d[b] == out@[b]);
                        } else if a == out@.len() {
                            assert(d[b] == out@[b]);
                        } else {
                            assert(d[a] == out@[a]);
                        }
                    }
                    assert forall|j: int| 0 <= j < d.len() implies is_pixel_of(rgba@, #[trigger] d[j]) by {
                        if j < out@.len() {
                            assert(d[j] == out@[j]);
                        } else {
                            assert(d[j] == pixel(rgba@, i as int));
                        }
                    }
                    assert(d.len() == limit + 1);
                }
                return None;
            }
            let ghost o0 = out@;
            out.push(c);
            proof {
                assert(out@[o0.len() as int] == c);
                assert forall|a: int, b: int| 0 <= a < out@.len() && 0 <= b < out@.len() && a != b implies out@[a] != out@[b] by {
                    if a < o0.len() && b < o0.len() {
                        assert(out@[a] == o0[a] && out@[b] == o0[b]);
                    } else if a == o0.len() {
                        assert(out@[b] == o0[b]);
                    } else {
                        assert(out@[a] == o0[a]);
                    }
                }
                assert forall|k: int| 0 <= k < i + 1 implies out@.contains(#[trigger] pixel(rgba@, k)) by {
                    if k < i {
                        let q = choose|q: int| 0 <= q < o0.len() && o0[q] == pixel(rgba@, k);
                        assert(out@[q] == pixel(rgba@, k));
                    }
                }
                assert forall|q: int| 0 <= q < out@.len() implies is_pixel_of(rgba@, #[trigger] out@[q]) by {
                    if q < o0.len() {
                        assert(out@[q] == o0[q]);
                    } else {
                        assert(out@[q] == pixel(rgba@, i as int));
                    }
                }
            }
        }
        i = i + 1;
    }
    Some(out)
}

/// The widest channel of `colors` and its range.
fn widest_channel(colors: &Vec<[u8; 4]>) -> (r: (usize, u8, u8))
    requires
        colors@.len() >= 1,
    ensures
        r.0 < 4,
        r.1 <= r.2,
        exists|i: int| 0 <= i < colors@.len() && colors@[i][r.0 as int] == r.1,
        exists|i: int| 0 <= i < colors@.len() && colors@[i][r.0 as int] == r.2,
{
    let mut best_c: usize = 0;
    let mut best_lo: u8 = colors[0][0];
    let mut best_hi: u8 = colors[0][0];
    let mut c: usize = 0;
    while c < 4
        invariant
            colors@.len() >= 1,
            c <= 4,
            best_c < 4,
            best_lo <= best_hi,
            exists|i: int| 0 <= i < colors@.len() && colors@[i][best_c as int] == best_lo,
            exists|i: int| 0 <= i < colors@.len() && colors@[i][best_c as int] == best_hi,
        decreases 4 - c,
    {
        let mut lo: u8 = colors[0][c];
        let mut hi: u8 = colors[0][c];
        let ghost mut ilo: int = 0;
        let ghost mut ihi: int = 0;
        let mut k: usize = 1;
        while k < colors.len()
            invariant
                colors@.len() >= 1,
                c < 4,
                1 <= k <= colors@.len(),
                lo <= hi,
                0 <= ilo < colors@.len(),
                0 <= ihi < colors@.len(),
                colors@[ilo][c as int] == lo,
                colors@[ihi][c as int] == hi,
            decreases colors@.len() - k,
        {
            let v = colors[k][c];
            if v < lo {
                lo = v;
                proof {
                    ilo = k as int;
                }
            }
            if v > hi {
                hi = v;
                proof {
                    ihi = k as int;
                }
            }
            k = k + 1;
        }
        if hi - lo > best_hi - best_lo {
            best_c = c;
            best_lo = lo;
            best_hi = hi;
        }
        c = c + 1;
    }
    (best_c, best_lo, best_hi)
}

/// Sum of channel `c` over the first `k` colours.
pub open spec fn channel_sum(colors: Seq<[u8; 4]>, c: int, k: int) -> int
    decreases k,
{
    if k <= 0 {
        0
    } else {
        channel_sum(colors, c, k - 1) + colors[k - 1][c] as int
    }
}

/// Channel means of `colors`, each rounded down.
fn mean_color(colors: &Vec<[u8; 4]>) -> (m: [u8; 4])
    requires
        1 <= colors@.len() <= 0x1_0000_0000,
    ensures
        m[0] as int == channel_sum(colors@, 0, colors@.len() as int) / (colors@.len() as int),
        m[1] as int == channel_sum(colors@, 1, colors@.len() as int) / (colors@.len() as int),
        m[2] as int == channel_sum(colors@, 2, colors@.len() as int) / (colors@.len() as int),
        m[3] as int == channel_sum(colors@, 3, colors@.len() as int) / (colors@.len() as int),
{
    let mut sums: [u64; 4] = [0, 0, 0, 0];
    let mut k: usize = 0;
    while k < colors.len()
        invariant
            k <= colors@.len(),
            colors@.len() <= 0x1_0000_0000,
            sums[0] <= 255 * k && sums[1] <= 255 * k && sums[2] <= 255 * k && sums[3] <= 255 * k,
            sums[0] as int == channel_sum(colors@, 0, k as int),
            sums[1] as int == channel_sum(colors@, 1, k as int),
            sums[2] as int == channel_sum(colors@, 2, k as int),
            sums[3] as int == channel_sum(colors@, 3, k as int),
        decreases colors@.len() - k,
    {
        let c = colors[k];
        sums = [sums[0] + c[0] as u64, sums[1] + c[1] as u64, sums[2] + c[2] as u64, sums[3] + c[3] as u64];
        k = k + 1;
    }
    let n = colors.len() as u64;
    proof {
        assert(sums[0] / n <= 255 && sums[1] / n <= 255 && sums[2] / n <= 255 && sums[3] / n <= 255) by (nonlinear_arith)
            requires
                n >= 1,
                sums[0] <= 255 * n,
                sums[1] <= 255 * n,
                sums[2] <= 255 * n,
                sums[3] <= 255 * n,
        ;
    }
    [(sums[0] / n) as u8, (sums[1] / n) as u8, (sums[2] / n) as u8, (sums[3] / n) as u8]
}

/// At most `limit` representative colours of the pixels of `rgba`: the
/// group with the widest channel range is cut at the middle of that range
/// until there are `limit` groups or no group spans a range; each group
/// gives its channel means.
fn cut_palette(rgba: &[u8], limit: usize) -> (pal: Vec<[u8; 4]>)
    requires
        rgba@.len() % 4 == 0,
        4 <= rgba@.len() <= 0x4_0000_0000,
        limit >= 1,
    ensures
        1 <= pal@.len() <= limit,
{
    let n = rgba.len() / 4;
    let mut all: Vec<[u8; 4]> = Vec::new();
    let mut i: usize = 0;
    while i < n
        invariant
            n == rgba@.len() / 4,
            i <= n,
            all@.len() == i,
        decreases n - i,
    {
        all.push(pixel_exec(rgba, i));
        i = i + 1;
    }
    let mut groups: Vec<Vec<[u8; 4]>> = Vec::new();
    groups.push(all);
    while groups.len() < limit
        invariant
            1 <= groups@.len() <= limit,
            forall|g: int| 0 <= g < groups@.len() ==> 1 <= #[trigger] groups@[g]@.len() <= 0x1_0000_0000,
        decreases limit - groups@.len(),
    {
        let mut best: usize = 0;
        let mut best_range: u8 = 0;
        let mut best_c: usize = 0;
        let mut best_mid: u8 = 0;
        let mut g: usize = 0;
        while g < groups.len()
            invariant
                1 <= groups@.len(),
                forall|q: int| 0 <= q < groups@.len() ==> 1 <= #[trigger] groups@[q]@.len() <= 0x1_0000_0000,
                g <= groups@.len(),
                best < groups@.len(),
                best_c < 4,
                best_range > 0 ==> (exists|i: int| 0 <= i < groups@[best as int]@.len() && groups@[best as int]@[i][best_c as int] < best_mid)
                    && (exists|i: int| 0 <= i < groups@[best as int]@.len() && groups@[best as int]@[i][best_c as int] >= best_mid),
            decreases groups@.len() - g,
        {
            let (c, lo, hi) = widest_channel(&groups[g]);
            if hi - lo > best_range {
                best = g;
                best_range = hi - lo;
                best_c = c;
                best_mid = (lo as u16 + (hi as u16 - lo as u16 + 1) / 2) as u8;
            }
            g = g + 1;
        }
        if best_range == 0 {
            break;
        }
        let src = groups.remove(best);
        let mut lower: Vec<[u8; 4]> = Vec::new();
        let mut upper: Vec<[u8; 4]> = Vec::new();
        let mut k: usize = 0;
        while k < src.len()
            invariant
                k <= src@.len(),
                lower@.len() + upper@.len() == k,
                best_c < 4,
                (exists|i: int| 0 <= i < k && src@[i][best_c as int] < best_mid) ==> lower@.len() >= 1,
                (exists|i: int| 0 <= i < k && src@[i][best_c as int] >= best_mid) ==> upper@.len() >= 1,
            decreases src@.len() - k,
        {
            let c = src[k];
            if c[best_c] < best_mid {
                lower.push(c);
            } else {
                upper.push(c);
            }
            k = k + 1;
        }
        groups.push(lower);
        groups.push(upper);
    }
    let mut pal: Vec<[u8; 4]> = Vec::new();
    let mut g: usize = 0;
    while g < groups.len()
        invariant
            g <= groups@.len(),
            groups@.len() <= limit,
            pal@.len() == g,
            forall|q: int| 0 <= q < groups@.len() ==> 1 <= #[trigger] groups@[q]@.len() <= 0x1_0000_0000,
        decreases groups@.len() - g,
    {
        pal.push(mean_color(&groups[g]));
        g = g + 1;
    }
    pal
}

/// Palette size allowed for `format` under the caller's cap: 16, 256 or
/// 16384 entries, lowered to `max_colors`, at least one.
pub open spec fn ci_limit(format: GxTexFmt, max_colors: Option<usize>) -> int {
    let cap: int = match format {
        GxTexFmt::CI4 => 16,
        GxTexFmt::CI8 => 256,
        _ => 16384,
    };
    let m: int = match max_colors {
        Some(m) => if m < cap {
            m as int
        } else {
            cap
        },
        None => cap,
    };
    if m == 0 {
        1
    } else {
        m
    }
}

/// Palette index of texel `t`: the nearest entry to its colour.
pub open spec fn ci_index(format: GxTexFmt, pal: Seq<[u8; 4]>, rgba: Seq<u8>, w: int, h: int, t: int) -> int {
    nearest(pal, texel_px(format, rgba, w, h, t))
}

/// Byte `m` of the index stream of a paletted format.
pub open spec fn ci_byte(format: GxTexFmt, pal: Seq<[u8; 4]>, rgba: Seq<u8>, w: int, h: int, m: int) -> u8 {
    match format {
        GxTexFmt::CI4 => (ci_index(format, pal, rgba, w, h, 2 * m) * 16 + ci_index(
            format,
            pal,
            rgba,
            w,
            h,
            2 * m + 1,
        )) as u8,
        GxTexFmt::CI8 => ci_index(format, pal, rgba, w, h, m) as u8,
        _ => if m % 2 == 0 {
            (ci_index(format, pal, rgba, w, h, m / 2) / 256) as u8
        } else {
            (ci_index(format, pal, rgba, w, h, m / 2) % 256) as u8
        },
    }
}

/// Byte count of the index stream of a paletted format.
pub open spec fn ci_len(format: GxTexFmt, w: int, h: int) -> int {
    let n = enc_pw(format, w) * enc_ph(format, h);
    match format {
        GxTexFmt::CI4 => n / 2,
        GxTexFmt::CI8 => n,
        _ => 2 * n,
    }
}

/// The index stream of a paletted format for the palette `pal`.
pub open spec fn ci_image(format: GxTexFmt, pal: Seq<[u8; 4]>, rgba: Seq<u8>, w: int, h: int) -> Seq<u8> {
    Seq::new(ci_len(format, w, h) as nat, |m: int| ci_byte(format, pal, rgba, w, h, m))
}

/// TLUT entry of the colour `c`.
pub open spec fn tlut_enc(tlut: GxTlutFmt, c: [u8; 4]) -> int {
    match tlut {
        GxTlutFmt::IA8 => c[3] as int * 256 + lum(c@),
        GxTlutFmt::RGB565 => rgb565_enc(c@),
        _ => rgb5a3_enc(c@),
    }
}

/// The TLUT bytes of a palette, big-endian entries.
pub open spec fn tlut_bytes(tlut: GxTlutFmt, pal: Seq<[u8; 4]>) -> Seq<u8> {
    Seq::new(
        2 * pal.len(),
        |m: int|
            if m % 2 == 0 {
                (tlut_enc(tlut, pal[m / 2]) / 256) as u8
            } else {
                (tlut_enc(tlut, pal[m / 2]) % 256) as u8
            },
    )
}

fn tlut_enc_exec(tlut: GxTlutFmt, c: &[u8; 4]) -> (v: u16)
    requires
        !(tlut is Unknown),
    ensures
        v == tlut_enc(tlut, *c),
{
    match tlut {
        GxTlutFmt::IA8 => enc16_exec(GxTexFmt::IA8, c),
        GxTlutFmt::RGB565 => enc16_exec(GxTexFmt::RGB565, c),
        _ => enc16_exec(GxTexFmt::RGB5A3, c),
    }
}

fn ci_byte_exec(format: GxTexFmt, pal: &Vec<[u8; 4]>, rgba: &[u8], w: u32, h: u32, m: u64) -> (b: u8)
    requires
        format is CI4 || format is CI8 || format is CI14X2,
        1 <= pal@.len() <= 16384,
        format is CI4 ==> pal@.len() <= 16,
        format is CI8 ==> pal@.len() <= 256,
        rgba@.len() == w * h * 4,
        m < 0x1_0000_0000_0000,
    ensures
        b == ci_byte(format, pal@, rgba@, w as int, h as int, m as int),
{
    match format {
        GxTexFmt::CI4 => {
            let a = nearest_exec(pal, &texel_px_exec(format, rgba, w, h, 2 * m));
            let b = nearest_exec(pal, &texel_px_exec(format, rgba, w, h, 2 * m + 1));
            (a * 16 + b) as u8
        },
        GxTexFmt::CI8 => nearest_exec(pal, &texel_px_exec(format, rgba, w, h, m)) as u8,
        _ => {
            let i = nearest_exec(pal, &texel_px_exec(format, rgba, w, h, m / 2));
            if m % 2 == 0 {
                (i / 256) as u8
            } else {
                (i % 256) as u8
            }
        },
    }
}

/// Encode a `width × height` RGBA8 image into a paletted format (CI4, CI8,
/// CI14X2) with a `tlut` palette.  When the image has no more distinct
/// colours than the palette allows (16, 256, 16384, or `max_colors` if
/// lower), the palette is those colours in order of first appearance;
/// otherwise groups of colours are cut at the middle of their widest
/// channel and each gives its mean.  Every texel takes the nearest entry.
pub fn encode_paletted_image(
    format: GxTexFmt,
    width: u32,
    height: u32,
    rgba: &[u8],
    tlut: GxTlutFmt,
    max_colors: Option<usize>,
) -> (r: Result<PalettedImage>)
    requires
        rgba@.len() == width * height * 4 ==> encode_fits(format, width as int, height as int),
    ensures
        r is Ok <==> (format is CI4 || format is CI8 || format is CI14X2) && rgba@.len() == width
            * height * 4 && !(tlut is Unknown),
        r matches Err(e) ==> (e matches HsdError::Malformed { offset, .. } && offset == 0),
        r matches Ok(p) ==> {
            &&& 1 <= p.palette_rgba@.len() <= ci_limit(format, max_colors)
            &&& p.image@ == ci_image(format, p.palette_rgba@, rgba@, width as int, height as int)
            &&& p.palette_bytes@ == tlut_bytes(tlut, p.palette_rgba@)
            &&& fits_in(rgba@, ci_limit(format, max_colors)) ==> forall|i: int|
                0 <= i < rgba@.len() / 4 ==> p.palette_rgba@.contains(#[trigger] pixel(rgba@, i))
        },
{
    match format {
        GxTexFmt::CI4 | GxTexFmt::CI8 | GxTexFmt::CI14X2 => {},
        _ => {
            return Err(HsdError::malformed(
                0,
                "encode_paletted_image: only CI4 / CI8 / CI14X2 are supported",
            ));
        },
    }
    proof {
        assert(width as int * height as int <= 0x1_0000_0000 * 0x1_0000_0000) by (nonlinear_arith)
            requires
                width <= u32::MAX,
                height <= u32::MAX,
        ;
    }
    let area: u128 = width as u128 * height as u128;
    if rgba.len() as u128 != area * 4 {
        return Err(HsdError::malformed(0, "encode_paletted_image: RGBA buffer size mismatch"));
    }
    if let GxTlutFmt::Unknown(_) = tlut {
        return Err(HsdError::malformed(0, "encode_paletted_image: unknown TLUT format"));
    }
    let cap: usize = match format {
        GxTexFmt::CI4 => 16,
        GxTexFmt::CI8 => 256,
        _ => 16384,
    };
    let m0: usize = match max_colors {
        Some(m) => if m < cap {
            m
        } else {
            cap
        },
        None => cap,
    };
    let limit: usize = if m0 == 0 {
        1
    } else {
        m0
    };
    assert(limit == ci_limit(format, max_colors));
    proof {
        lemma_pad_to(width as int, 4);
        lemma_pad_to(height as int, 4);
        lemma_pad_to(width as int, 8);
        lemma_pad_to(height as int, 8);
        lemma_pad_to(pad_to(width as int, 4), 8);
        lemma_pad_to(pad_to(height as int, 4), 8);
        assert(width as int * height as int * 4 <= u32::MAX) by (nonlinear_arith)
            requires
                encode_fits(format, width as int, height as int),
                width <= pad_to(pad_to(width as int, 4), 8),
                height <= pad_to(pad_to(height as int, 4), 8),
        ;
    }
    let palette: Vec<[u8; 4]> = if rgba.len() == 0 {
        let mut p: Vec<[u8; 4]> = Vec::new();
        p.push([0, 0, 0, 0]);
        p
    } else {
        match distinct_colors(rgba, limit) {
            Some(v) => v,
            None => {
                proof {
                    let d = choose|d: Seq<[u8; 4]>|
                        #![trigger d.len()]
                        d.len() == limit + 1 && d.no_duplicates() && forall|j: int|
                            0 <= j < d.len() ==> is_pixel_of(rgba@, #[trigger] d[j]);
                    lemma_pigeon(rgba@, limit as int, d);
                }
                cut_palette(rgba, limit)
            },
        }
    };
    proof {
        if rgba@.len() > 0 {
            assert(rgba@.len() >= 4) by (nonlinear_arith)
                requires
                    rgba@.len() == width * height * 4,
                    rgba@.len() > 0,
            ;
        }
    }
    if palette.len() == 0 {
        proof {
            assert(false) by {
                assert(rgba@.len() / 4 >= 1);
                assert(palette@.contains(pixel(rgba@, 0)));
            }
        }
        return Err(HsdError::malformed(0, "encode_paletted_image: empty palette"));
    }
    let w8 = pad_exec(width as u64, 8) as u128;
    let w4 = pad_exec(width as u64, 4) as u128;
    let h8 = pad_exec(height as u64, 8) as u128;
    let h4 = pad_exec(height as u64, 4) as u128;
    proof {
        assert(w8 * h8 <= 0x2_0000_0000 * 0x2_0000_0000) by (nonlinear_arith)
            requires
                w8 <= 0x2_0000_0000,
                h8 <= 0x2_0000_0000,
        ;
        assert(w8 * h4 <= 0x2_0000_0000 * 0x2_0000_0000) by (nonlinear_arith)
            requires
                w8 <= 0x2_0000_0000,
                h4 <= 0x2_0000_0000,
        ;
        assert(w4 * h4 <= 0x2_0000_0000 * 0x2_0000_0000) by (nonlinear_arith)
            requires
                w4 <= 0x2_0000_0000,
                h4 <= 0x2_0000_0000,
        ;
    }
    let len128: u128 = match format {
        GxTexFmt::CI4 => w8 * h8 / 2,
        GxTexFmt::CI8 => w8 * h4,
        _ => 2 * (w4 * h4),
    };
    proof {
        assert(len128 == ci_len(format, width as int, height as int));
        assert(ci_len(format, width as int, height as int) <= u32::MAX) by (nonlinear_arith)
            requires
                encode_fits(format, width as int, height as int),
                enc_pw(format, width as int) <= pad_to(pad_to(width as int, 4), 8),
                enc_ph(format, height as int) <= pad_to(pad_to(height as int, 4), 8),
                enc_pw(format, width as int) >= 0,
                enc_ph(format, height as int) >= 0,
                ci_len(format, width as int, height as int) <= 2 * (enc_pw(format, width as int) * enc_ph(format, height as int)),
        ;
    }
    let len = len128 as u64;
    let mut image: Vec<u8> = Vec::new();
    let mut m: u64 = 0;
    while m < len
        invariant
            format is CI4 || format is CI8 || format is CI14X2,
            1 <= palette@.len() <= 16384,
            format is CI4 ==> palette@.len() <= 16,
            format is CI8 ==> palette@.len() <= 256,
            rgba@.len() == width * height * 4,
            len == ci_len(format, width as int, height as int),
            len <= u32::MAX,
            m <= len,
            image@.len() == m,
            forall|k: int| 0 <= k < m ==> #[trigger] image@[k] == ci_byte(format, palette@, rgba@, width as int, height as int, k),
        decreases len - m,
    {
        image.push(ci_byte_exec(format, &palette, rgba, width, height, m));
        m = m + 1;
    }
    let mut bytes: Vec<u8> = Vec::new();
    let mut k: usize = 0;
    while k < palette.len()
        invariant
            !(tlut is Unknown),
            k <= palette@.len(),
            palette@.len() <= 16384,
            bytes@.len() == 2 * k,
            forall|q: int| 0 <= q < 2 * k ==> #[trigger] bytes@[q] == tlut_bytes(tlut, palette@)[q],
        decreases palette@.len() - k,
    {
        let v = tlut_enc_exec(tlut, &palette[k]);
        let ghost b0 = bytes@;
        bytes.push((v / 256) as u8);
        bytes.push((v % 256) as u8);
        proof {
            assert forall|q: int| 0 <= q < 2 * (k + 1) implies #[trigger] bytes@[q] == tlut_bytes(tlut, palette@)[q] by {
                if q < 2 * k {
                    assert(bytes@[q] == b0[q]);
                } else {
                    assert(q / 2 == k);
                }
            }
        }
        k = k + 1;
    }
    proof {
        assert(image@ =~= ci_image(format, palette@, rgba@, width as int, height as int));
        assert(bytes@ =~= tlut_bytes(tlut, palette@));
    }
    Ok(PalettedImage { image, palette_rgba: palette, palette_bytes: bytes })
}

/// Entry `i` of the decoded TLUT of a palette is the entry as the TLUT
/// format keeps it.
#[verifier::spinoff_prover]
#[verifier::rlimit(40)]
proof fn lemma_tlut_entry(tlut: GxTlutFmt, pal: Seq<[u8; 4]>, i: int)
    requires
        0 <= i < pal.len(),
        !(tlut is Unknown),
    ensures
        pal_entry(palette_rgba_spec(tlut, tlut_bytes(tlut, pal)), i) == tlut_px(
            tlut,
            tlut_enc(tlut, pal[i]) as u16,
        ),
{
    let bytes = tlut_bytes(tlut, pal);
    let prgba = palette_rgba_spec(tlut, bytes);
    let c = pal[i];
    let v = tlut_enc(tlut, c);
    lemma_lum_bound(c@);
    lemma_quant_bound(c[0] as int, 31);
    lemma_quant_bound(c[1] as int, 31);
    lemma_quant_bound(c[2] as int, 31);
    lemma_quant_bound(c[1] as int, 63);
    lemma_quant_bound(c[0] as int, 15);
    lemma_quant_bound(c[1] as int, 15);
    lemma_quant_bound(c[2] as int, 15);
    lemma_quant_bound(c[3] as int, 7);
    assert(0 <= v < 0x1_0000);
    assert((2 * i) / 2 == i && (2 * i) % 2 == 0);
    assert((2 * i + 1) / 2 == i && (2 * i + 1) % 2 == 1);
    assert(bytes[2 * i] == (v / 256) as u8);
    assert(bytes[2 * i + 1] == (v % 256) as u8);
    assert((v / 256) * 256 + v % 256 == v) by (nonlinear_arith)
        requires
            v >= 0,
    ;
    assert(be16_at(bytes, 2 * i) == v as u16);
    assert forall|k: int| 0 <= k < 4 implies #[trigger] prgba[4 * i + k] == tlut_px(tlut, v as u16)[k] by {
        assert((4 * i + k) / 4 == i);
        assert((4 * i + k) % 4 == k);
    }
    assert(pal_entry(prgba, i) =~= tlut_px(tlut, v as u16));
}

/// Decoding the index stream of a paletted encode with its TLUT gives each
/// pixel the nearest palette colour, as the TLUT format keeps it.
pub proof fn law_paletted_decode(
    format: GxTexFmt,
    tlut: GxTlutFmt,
    pal: Seq<[u8; 4]>,
    rgba: Seq<u8>,
    w: int,
    h: int,
    x: int,
    y: int,
)
    requires
        format is CI4 || format is CI8 || format is CI14X2,
        !(tlut is Unknown),
        1 <= pal.len(),
        format is CI4 ==> pal.len() <= 16,
        format is CI8 ==> pal.len() <= 256,
        pal.len() <= 16384,
        rgba.len() == w * h * 4,
        0 <= x < w,
        0 <= y < h,
    ensures
        decoded_px(
            format,
            w,
            h,
            ci_image(format, pal, rgba, w, h),
            palette_rgba_spec(tlut, tlut_bytes(tlut, pal)),
            x,
            y,
        ) == tlut_px(tlut, tlut_enc(tlut, pal[nearest(pal, sample(rgba, w, h, x, y))]) as u16),
{
    let raw = ci_image(format, pal, rgba, w, h);
    let t = texel(format, w, x, y);
    let px = sample(rgba, w, h, x, y);
    let prgba = palette_rgba_spec(tlut, tlut_bytes(tlut, pal));
    lemma_texel_px(format, rgba, w, h, x, y);
    lemma_nearest_in(pal, px, pal.len());
    let i = nearest(pal, px);
    lemma_tlut_entry(tlut, pal, i);
    match format {
        GxTexFmt::CI4 => {
            lemma_half_bound(t, enc_pw(format, w), enc_ph(format, h));
            let m = t / 2;
            let a = ci_index(format, pal, rgba, w, h, 2 * m);
            let b = ci_index(format, pal, rgba, w, h, 2 * m + 1);
            lemma_nearest_in(pal, texel_px(format, rgba, w, h, 2 * m), pal.len());
            lemma_nearest_in(pal, texel_px(format, rgba, w, h, 2 * m + 1), pal.len());
            assert(raw[m] == (a * 16 + b) as u8);
            lemma_fundamental_div_mod_converse(a * 16 + b, 16, a, b);
            if t % 2 == 0 {
                assert(2 * m == t);
            } else {
                assert(2 * m + 1 == t);
            }
            assert(nibble(raw, t) == i);
        },
        GxTexFmt::CI8 => {
            assert(raw[t] == i as u8);
        },
        _ => {
            lemma_tile_bound(t, enc_pw(format, w), enc_ph(format, h));
            assert((2 * t) / 2 == t && (2 * t) % 2 == 0);
            assert((2 * t + 1) / 2 == t && (2 * t + 1) % 2 == 1);
            assert(raw[2 * t] == (i / 256) as u8);
            assert(raw[2 * t + 1] == (i % 256) as u8);
            assert((i / 256) * 256 + i % 256 == i) by (nonlinear_arith)
                requires
                    i >= 0,
            ;
            assert(be16_at(raw, 2 * t) as int == i);
            lemma_fundamental_div_mod_converse(i, 0x4000, 0, i);
        },
    }
}

/// A colour the palette holds is kept exactly by the nearest-entry choice.
pub proof fn law_palette_hit(pal: Seq<[u8; 4]>, c: [u8; 4])
    requires
        pal.contains(c),
    ensures
        pal[nearest(pal, c@)] == c,
{
    let j = choose|j: int| 0 <= j < pal.len() && pal[j] == c;
    lemma_nearest_in(pal, c@, pal.len());
    let i = nearest(pal, c@);
    assert(dist(pal[j], c@) == 0);
    assert(dist(pal[i], c@) <= 0);
    let e = pal[i];
    assert((e[0] - c[0]) * (e[0] - c[0]) >= 0 && (e[1] - c[1]) * (e[1] - c[1]) >= 0 && (e[2] - c[2]) * (e[2] - c[2]) >= 0 && (e[3] - c[3]) * (e[3] - c[3]) >= 0) by (nonlinear_arith);
    assert(e[0] == c[0] && e[1] == c[1] && e[2] == c[2] && e[3] == c[3]) by (nonlinear_arith)
        requires
            (e[0] - c[0]) * (e[0] - c[0]) + (e[1] - c[1]) * (e[1] - c[1]) + (e[2] - c[2]) * (e[2] - c[2]) + (e[3] - c[3]) * (e[3] - c[3]) <= 0,
            (e[0] - c[0]) * (e[0] - c[0]) >= 0,
            (e[1] - c[1]) * (e[1] - c[1]) >= 0,
            (e[2] - c[2]) * (e[2] - c[2]) >= 0,
            (e[3] - c[3]) * (e[3] - c[3]) >= 0,
    ;
    assert(e@ =~= c@);
}

// ---------------------------------------------------------------------
// PNG
// ---------------------------------------------------------------------

/// The PNG file the `png` crate writes for an RGBA8 image of
/// `width × height` with default settings.
pub uninterp spec fn png_rgba8(rgba: Seq<u8>, width: u32, height: u32) -> Seq<u8>;

/// Which step of the PNG encoder failed.
#[derive(Debug, Clone, Copy, PartialEq, Eq)]
pub enum PngStep {
    Header,
    ImageData,
}

/// Outcome of the PNG encoder.
pub type PngResult = core::result::Result<Vec<u8>, PngStep>;

/// `png::Encoder` for 8-bit RGBA, `write_header` then `write_image_data`
/// into a `Vec`.  The contract claims that a success is a function of the
/// pixels and the size, that a zero width or height fails at the header
/// (the encoder's `init` refuses them), and that any other size succeeds:
/// writing into a `Vec` cannot fail and the buffer has the length
/// `write_image_data` expects.
#[verifier::external_body]
fn png_encode(rgba: &[u8], width: u32, height: u32) -> (r: PngResult)
    requires
        rgba@.len() == width * height * 4,
    ensures
        r matches Ok(v) ==> v@ == png_rgba8(rgba@, width, height),
        width == 0 || height == 0 ==> (r matches Err(PngStep::Header)),
        width > 0 && height > 0 ==> r is Ok,
{
    let mut out = Vec::with_capacity(rgba.len() / 2);
    {
        let mut encoder = png::Encoder::new(&mut out, width, height);
        encoder.set_color(png::ColorType::Rgba);
        encoder.set_depth(png::BitDepth::Eight);
        let mut writer = match encoder.write_header() {
            Ok(w) => w,
            Err(_) => return Err(PngStep::Header),
        };
        if writer.write_image_data(rgba).is_err() {
            return Err(PngStep::ImageData);
        }
    }
    Ok(out)
}

/// Encode an RGBA8 image as a minimal PNG (IHDR, IDAT, IEND).
pub fn encode_png(rgba: &[u8], width: u32, height: u32) -> (r: Result<Vec<u8>>)
    requires
        rgba@.len() == width * height * 4,
    ensures
        r matches Ok(v) ==> v@ == png_rgba8(rgba@, width, height),
        r matches Err(e) ==> (e matches HsdError::Malformed { offset, .. } && offset == 0),
        width == 0 || height == 0 ==> r is Err,
        width > 0 && height > 0 ==> (r matches Ok(v) && v@ == png_rgba8(rgba@, width, height)),
{
    match png_encode(rgba, width, height) {
        Ok(v) => Ok(v),
        Err(PngStep::Header) => Err(HsdError::malformed(0, "png header write failed")),
        Err(PngStep::ImageData) => Err(HsdError::malformed(0, "png idat write failed")),
    }
}

} // verus!
