use vstd::prelude::*;
use vstd::arithmetic::div_mod::{
    lemma_fundamental_div_mod, lemma_fundamental_div_mod_converse, lemma_mod_multiples_vanish,
};
use vstd::arithmetic::power2::{pow2, lemma_pow2_pos, lemma_pow2_strictly_increases, lemma2_to64};
use crate::bits::{bytes_bits, zeros, lemma_bytes_bits_append, lemma_bytes_bits_len, lemma_low_bits_len};
use crate::encoders::{
    activity, is_rice_k, rice_code, has_codeword, codeword_value, zero_run, rice_compute_k,
    rice_encode_value, rice_decode_value, lemma_k_monotone, lemma_codeword_round_trip, fold,
};
use crate::frame::Plane;
use crate::stream::{StreamError, StreamReader, StreamWriter};

verus! {

/// Median-edge prediction from the left (`a`), upper (`b`) and upper-left (`c`) samples.
pub open spec fn predict(a: u16, b: u16, c: u16) -> int {
    let lo: int = if a <= b { a as int } else { b as int };
    let hi: int = if a <= b { b as int } else { a as int };
    if c >= hi {
        lo
    } else if c <= lo {
        hi
    } else {
        a + b - c
    }
}

/// The Rice parameter selected by an activity level.
pub open spec fn rice_k(act: int) -> nat {
    choose|k: nat| is_rice_k(act, k)
}

/// Left neighbour, or zero in the first column.
pub open spec fn ctx_a(px: spec_fn(int, int) -> u16, w: int, col: int, row: int) -> u16 {
    if col > 0 { px(col - 1, row) } else { 0 }
}

/// Upper neighbour, or zero in the first row.
pub open spec fn ctx_b(px: spec_fn(int, int) -> u16, w: int, col: int, row: int) -> u16 {
    if row > 0 { px(col, row - 1) } else { 0 }
}

/// Upper-left neighbour, or zero in the first row or column.
pub open spec fn ctx_c(px: spec_fn(int, int) -> u16, w: int, col: int, row: int) -> u16 {
    if row > 0 && col > 0 { px(col - 1, row - 1) } else { 0 }
}

/// Upper-right neighbour, or zero in the first row or the last column.
pub open spec fn ctx_d(px: spec_fn(int, int) -> u16, w: int, col: int, row: int) -> u16 {
    if row > 0 && col + 1 < w { px(col + 1, row - 1) } else { 0 }
}

/// The Rice parameter of the sample at `(col, row)`.
pub open spec fn pixel_k(px: spec_fn(int, int) -> u16, w: int, col: int, row: int) -> nat {
    rice_k(
        activity(
            ctx_a(px, w, col, row),
            ctx_b(px, w, col, row),
            ctx_c(px, w, col, row),
            ctx_d(px, w, col, row),
        ),
    )
}

/// The prediction for the sample at `(col, row)`.
pub open spec fn pixel_prediction(px: spec_fn(int, int) -> u16, w: int, col: int, row: int) -> int {
    predict(ctx_a(px, w, col, row), ctx_b(px, w, col, row), ctx_c(px, w, col, row))
}

/// The codeword of the sample at `(col, row)`.
pub open spec fn pixel_code(px: spec_fn(int, int) -> u16, w: int, col: int, row: int) -> Seq<bool> {
    rice_code(pixel_k(px, w, col, row), px(col, row) - pixel_prediction(px, w, col, row))
}

/// The codewords of the first `n` samples in raster order.
pub open spec fn code_prefix(px: spec_fn(int, int) -> u16, w: nat, n: nat) -> Seq<bool>
    decreases n,
{
    if n == 0 || w == 0 {
        Seq::empty()
    } else {
        let i: int = n - 1;
        code_prefix(px, w, i as nat) + pixel_code(px, w as int, i % (w as int), i / (w as int))
    }
}

/// The bit stream of a whole `w` by `h` plane, before padding.
pub open spec fn plane_code(px: spec_fn(int, int) -> u16, w: nat, h: nat) -> Seq<bool> {
    code_prefix(px, w, w * h)
}

/// A raster-order sample sequence seen as a function of column and row.
pub open spec fn raster_px(g: Seq<u16>, w: int) -> spec_fn(int, int) -> u16 {
    |col: int, row: int| g[row * w + col]
}

/// Reduces a reconstructed value to 16 bits.
pub open spec fn wrap16(v: int) -> u16 {
    (v % 0x10000) as u16
}

/// Decodes the first `n` samples of a plane of width `w` from `s`: the samples and
/// the number of bits they took, or `None` where a codeword is cut short.
pub open spec fn decode_pixels(s: Seq<bool>, w: nat, n: nat) -> Option<(Seq<u16>, nat)>
    decreases n,
{
    if n == 0 || w == 0 {
        Some((Seq::empty(), 0))
    } else {
        let i: int = n - 1;
        match decode_pixels(s, w, i as nat) {
            None => None,
            Some((g, pos)) => {
                let px = raster_px(g, w as int);
                let col: int = i % (w as int);
                let row: int = i / (w as int);
                let k = pixel_k(px, w as int, col, row);
                let t = s.skip(pos as int);
                if pos <= s.len() && has_codeword(t, k) {
                    Some(
                        (
                            g.push(wrap16(pixel_prediction(px, w as int, col, row) + codeword_value(t, k))),
                            pos + zero_run(t) + 1 + k,
                        ),
                    )
                } else {
                    None
                }
            },
        }
    }
}

/// Zero bits that bring `n` bits up to a whole number of bytes.
pub open spec fn pad_len(n: nat) -> nat {
    ((8 - n % 8) % 8) as nat
}

/// A plane encoder and decoder.
pub trait Codec {
    /// The bits that encode a `w` by `h` plane, before padding.
    spec fn code(&self, px: spec_fn(int, int) -> u16, w: nat, h: nat) -> Seq<bool>;

    /// What decoding a `w` by `h` plane from `s` yields: the raster-order samples and
    /// the bits consumed, or `None` where `s` ends too soon.
    spec fn decoding(&self, s: Seq<bool>, w: nat, h: nat) -> Option<(Seq<u16>, nat)>;

    /// Appends the encoded plane, padded to whole bytes, to `dest`.
    fn encode(&self, plane: &Plane, dest: Vec<u8>) -> (r: Vec<u8>)
        requires
            plane.wf(),
            plane.width * plane.height <= usize::MAX,
        ensures
            dest@.is_prefix_of(r@),
            bytes_bits(r@.skip(dest@.len() as int)) == self.code(
                plane.pixels(),
                plane.width as nat,
                plane.height as nat,
            ) + zeros(pad_len(self.code(plane.pixels(), plane.width as nat, plane.height as nat).len())),
            r@.len() == dest@.len() + (self.code(plane.pixels(), plane.width as nat, plane.height as nat).len() + 7) / 8,
    ;

    /// Decodes a `width` by `height` plane that starts at the reader's byte boundary,
    /// then skips to the next byte boundary.
    fn decode(&self, source: &mut StreamReader, width: usize, height: usize) -> (r: Result<
        Vec<u16>,
        StreamError,
    >)
        requires
            old(source).wf(),
            old(source).position() % 8 == 0,
            width * height <= usize::MAX,
        ensures
            final(source).wf(),
            final(source).source() == old(source).source(),
            match r {
                Ok(g) => g@.len() == width * height && exists|n: nat|
                    self.decoding(old(source).remaining(), width as nat, height as nat) == Some(
                        (g@, n),
                    ) && final(source).position() == old(source).position() + n + pad_len(n),
                Err(e) => self.decoding(old(source).remaining(), width as nat, height as nat)
                    is None && e == StreamError::UnexpectedEof,
            },
    ;
}

/// Median-edge prediction with an adaptive Rice coder.
pub struct FixedPredictionCodec;

impl FixedPredictionCodec {
    /// The median-edge prediction for left `a`, upper `b` and upper-left `c`.
    pub fn fixed_prediction(&self, a: u16, b: u16, c: u16) -> (r: i32)
        ensures
            r == predict(a, b, c),
            0 <= r <= 0xffff,
    {
        let min_a_b: u16 = if a <= b { a } else { b };
        let max_a_b: u16 = if a <= b { b } else { a };
        if c >= max_a_b {
            min_a_b as i32
        } else if c <= min_a_b {
            max_a_b as i32
        } else {
            a as i32 + b as i32 - c as i32
        }
    }
}

proof fn lemma_rice_k(a: u16, b: u16, c: u16, d: u16, k: nat)
    requires
        is_rice_k(activity(a, b, c, d), k),
    ensures
        rice_k(activity(a, b, c, d)) == k,
{
    let act = activity(a, b, c, d);
    let j = rice_k(act);
    assert(is_rice_k(act, j));
    lemma_k_monotone(act, act, k, j);
    lemma_k_monotone(act, act, j, k);
}

proof fn lemma_raster(w: int, col: int, row: int)
    requires
        0 <= col < w,
        0 <= row,
    ensures
        (row * w + col) % w == col,
        (row * w + col) / w == row,
        row * w + col + 1 == (if col + 1 < w { row * w + (col + 1) } else { (row + 1) * w }),
        0 <= row * w,
{
    lemma_fundamental_div_mod_converse(row * w + col, w, row, col);
    assert((row + 1) * w == row * w + w) by (nonlinear_arith);
    assert(0 <= row * w) by (nonlinear_arith)
        requires 0 <= row, 0 < w;
}

proof fn lemma_decode_step(
    s: Seq<bool>,
    w: int,
    col: int,
    row: int,
    g: Seq<u16>,
    pos: nat,
    k: nat,
    x: u16,
)
    requires
        0 <= col < w,
        0 <= row,
        g.len() == row * w + col,
        decode_pixels(s, w as nat, (row * w + col) as nat) == Some((g, pos)),
        is_rice_k(
            activity(
                ctx_a(raster_px(g, w), w, col, row),
                ctx_b(raster_px(g, w), w, col, row),
                ctx_c(raster_px(g, w), w, col, row),
                ctx_d(raster_px(g, w), w, col, row),
            ),
            k,
        ),
        pos <= s.len(),
        has_codeword(s.skip(pos as int), k),
        x == wrap16(pixel_prediction(raster_px(g, w), w, col, row) + codeword_value(s.skip(pos as int), k)),
    ensures
        decode_pixels(s, w as nat, (row * w + col + 1) as nat) == Some(
            (g.push(x), pos + zero_run(s.skip(pos as int)) + 1 + k),
        ),
{
    lemma_raster(w, col, row);
    let px = raster_px(g, w);
    lemma_rice_k(ctx_a(px, w, col, row), ctx_b(px, w, col, row), ctx_c(px, w, col, row),
        ctx_d(px, w, col, row), k);
}

proof fn lemma_decode_step_none(s: Seq<bool>, w: int, col: int, row: int, g: Seq<u16>, pos: nat, k: nat)
    requires
        0 <= col < w,
        0 <= row,
        decode_pixels(s, w as nat, (row * w + col) as nat) == Some((g, pos)),
        is_rice_k(
            activity(
                ctx_a(raster_px(g, w), w, col, row),
                ctx_b(raster_px(g, w), w, col, row),
                ctx_c(raster_px(g, w), w, col, row),
                ctx_d(raster_px(g, w), w, col, row),
            ),
            k,
        ),
        !has_codeword(s.skip(pos as int), k),
    ensures
        decode_pixels(s, w as nat, (row * w + col + 1) as nat) is None,
{
    lemma_raster(w, col, row);
    let px = raster_px(g, w);
    lemma_rice_k(ctx_a(px, w, col, row), ctx_b(px, w, col, row), ctx_c(px, w, col, row),
        ctx_d(px, w, col, row), k);
}

/// The first `n` samples of `px` in raster order.
pub open spec fn raster(px: spec_fn(int, int) -> u16, w: nat, n: nat) -> Seq<u16> {
    Seq::new(n, |i: int| px(i % (w as int), i / (w as int)))
}

/// The median of three values.
pub open spec fn median(x: int, y: int, z: int) -> int {
    let lo = if x <= y { x } else { y };
    let hi = if x <= y { y } else { x };
    if z <= lo {
        lo
    } else if z >= hi {
        hi
    } else {
        z
    }
}

/// The median-edge prediction is the median of the left sample, the upper sample and
/// the planar gradient `a + b - c`.
pub proof fn lemma_prediction_is_median(a: u16, b: u16, c: u16)
    ensures
        predict(a, b, c) == median(a as int, b as int, a + b - c),
        0 <= predict(a, b, c) <= 0xffff,
{
}

/// A sample's context reads zero outside the plane: the first row has no upper
/// neighbours, the first column no left ones, and the last column no upper-right one.
pub proof fn lemma_context_boundaries(px: spec_fn(int, int) -> u16, w: int, col: int, row: int)
    ensures
        row == 0 ==> ctx_b(px, w, col, row) == 0 && ctx_c(px, w, col, row) == 0 && ctx_d(
            px,
            w,
            col,
            row,
        ) == 0,
        col == 0 ==> ctx_a(px, w, col, row) == 0 && ctx_c(px, w, col, row) == 0,
        col + 1 == w ==> ctx_d(px, w, col, row) == 0,
{
}

proof fn lemma_rice_k_search(act: int, k: nat)
    requires
        act <= 3 * 0xffff,
        k <= 16,
        k == 0 || 3 * pow2((k - 1) as nat) < act,
    ensures
        exists|j: nat| is_rice_k(act, j) && j <= 16,
    decreases 16 - k,
{
    lemma2_to64();
    if 3 * pow2(k) >= act {
        assert(is_rice_k(act, k));
    } else {
        if k >= 16 {
            if k > 16 {
                lemma_pow2_strictly_increases(16, k);
            }
            assert(false);
        }
        lemma_rice_k_search(act, k + 1);
    }
}

proof fn lemma_rice_k_small(a: u16, b: u16, c: u16, d: u16)
    ensures
        is_rice_k(activity(a, b, c, d), rice_k(activity(a, b, c, d))),
        rice_k(activity(a, b, c, d)) <= 16,
{
    let act = activity(a, b, c, d);
    lemma_rice_k_search(act, 0);
    let j = choose|j: nat| is_rice_k(act, j) && j <= 16;
    lemma_rice_k(a, b, c, d, j);
}

proof fn lemma_code_prefix_grows(px: spec_fn(int, int) -> u16, w: nat, n: nat, m: nat)
    requires
        n <= m,
    ensures
        code_prefix(px, w, n).is_prefix_of(code_prefix(px, w, m)),
    decreases m - n,
{
    if n < m {
        lemma_code_prefix_grows(px, w, n, (m - 1) as nat);
    }
}

/// Reading back a sample that lies before raster index `n` from the first `n` samples.
proof fn lemma_raster_read(px: spec_fn(int, int) -> u16, w: int, n: nat, col: int, row: int)
    requires
        0 <= col < w,
        0 <= row,
        row * w + col < n,
    ensures
        raster_px(raster(px, w as nat, n), w)(col, row) == px(col, row),
{
    lemma_raster(w, col, row);
}

proof fn lemma_context_match(px: spec_fn(int, int) -> u16, wi: int, i: nat, col: int, row: int)
    requires
        wi >= 1,
        0 <= col < wi,
        0 <= row,
        i == row * wi + col,
    ensures
        ctx_a(raster_px(raster(px, wi as nat, i), wi), wi, col, row) == ctx_a(px, wi, col, row),
        ctx_b(raster_px(raster(px, wi as nat, i), wi), wi, col, row) == ctx_b(px, wi, col, row),
        ctx_c(raster_px(raster(px, wi as nat, i), wi), wi, col, row) == ctx_c(px, wi, col, row),
        ctx_d(raster_px(raster(px, wi as nat, i), wi), wi, col, row) == ctx_d(px, wi, col, row),
{
    if col > 0 {
        lemma_raster_read(px, wi, i, col - 1, row);
    }
    if row > 0 {
        assert((row - 1) * wi == row * wi - wi) by (nonlinear_arith);
        lemma_raster_read(px, wi, i, col, row - 1);
        if col > 0 {
            lemma_raster_read(px, wi, i, col - 1, row - 1);
        }
        if col + 1 < wi {
            lemma_raster_read(px, wi, i, col + 1, row - 1);
        }
    }
}

proof fn lemma_stream_split(px: spec_fn(int, int) -> u16, w: nat, total: nat, n: nat, rest: Seq<bool>)
    requires
        w >= 1,
        1 <= n <= total,
    ensures
        ({
            let s = code_prefix(px, w, total) + rest;
            let i: int = n - 1;
            let pos = code_prefix(px, w, i as nat).len();
            let code = pixel_code(px, w as int, i % (w as int), i / (w as int));
            &&& code_prefix(px, w, n) == code_prefix(px, w, i as nat) + code
            &&& s.skip(pos as int) == code + s.skip((pos + code.len()) as int)
        }),
{
    let s = code_prefix(px, w, total) + rest;
    let i: int = n - 1;
    let pos = code_prefix(px, w, i as nat).len();
    let code = pixel_code(px, w as int, i % (w as int), i / (w as int));
    let more = s.skip((pos + code.len()) as int);
    lemma_code_prefix_grows(px, w, n, total);
    let cp_n = code_prefix(px, w, n);
    let cp_t = code_prefix(px, w, total);
    assert(cp_n =~= code_prefix(px, w, i as nat) + code);
    assert(cp_n.len() <= cp_t.len());
    assert(cp_t.subrange(0, cp_n.len() as int) == cp_n);
    assert(pos + code.len() <= s.len());
    assert forall|j: int| 0 <= j < s.len() - pos implies #[trigger] s.skip(pos as int)[j] == (code
        + more)[j] by {
        if j < code.len() {
            assert(cp_n[pos + j] == code[j]);
            assert(cp_t.subrange(0, cp_n.len() as int)[pos + j] == cp_t[pos + j]);
            assert(s[pos + j] == cp_t[pos + j]);
        } else {
            assert(more[j - code.len()] == s[pos + j]);
        }
    }
    assert(s.skip(pos as int) =~= code + more);
}

/// Decoding the first `n` samples of a stream that begins with the code of `px`
/// gives back those samples and the length of their code.
proof fn lemma_decode_prefix(px: spec_fn(int, int) -> u16, w: nat, total: nat, n: nat, rest: Seq<bool>)
    requires
        w >= 1,
        n <= total,
    ensures
        decode_pixels(code_prefix(px, w, total) + rest, w, n) == Some(
            (raster(px, w, n), code_prefix(px, w, n).len()),
        ),
    decreases n,
{
    let s = code_prefix(px, w, total) + rest;
    if n == 0 {
        assert(raster(px, w, 0) =~= Seq::<u16>::empty());
    } else {
        let i: int = n - 1;
        lemma_decode_prefix(px, w, total, i as nat, rest);
        let g = raster(px, w, i as nat);
        let pos = code_prefix(px, w, i as nat).len();
        let wi = w as int;
        let col = i % wi;
        let row = i / wi;
        lemma_fundamental_div_mod(i, wi);
        assert(0 <= col < wi);
        assert(i == row * wi + col) by (nonlinear_arith)
            requires i == wi * row + col;
        assert(0 <= row) by (nonlinear_arith)
            requires i >= 0, wi >= 1, row == i / wi;
        lemma_raster(wi, col, row);
        lemma_context_match(px, wi, i as nat, col, row);
        let a = ctx_a(px, wi, col, row);
        let b = ctx_b(px, wi, col, row);
        let c = ctx_c(px, wi, col, row);
        let d = ctx_d(px, wi, col, row);
        lemma_rice_k_small(a, b, c, d);
        let k = pixel_k(px, wi, col, row);
        let x = px(col, row);
        let pred = pixel_prediction(px, wi, col, row);
        lemma_prediction_is_median(a, b, c);
        let code = pixel_code(px, wi, col, row);
        let more = s.skip((pos + code.len()) as int);
        lemma_stream_split(px, w, total, n, rest);
        lemma_codeword_round_trip(k, x - pred, more);
        lemma_pow2_pos(k);
        lemma_low_bits_len(fold(x - pred) % pow2(k), k);
        assert(g.push(x) =~= raster(px, w, n));
        assert(wrap16(pred + (x - pred)) == x);
    }
}

/// Decoding a whole plane from a stream that begins with its code reproduces every
/// sample and consumes exactly that code.
pub proof fn lemma_plane_round_trip(px: spec_fn(int, int) -> u16, w: nat, h: nat, rest: Seq<bool>)
    ensures
        decode_pixels(plane_code(px, w, h) + rest, w, w * h) == Some(
            (raster(px, w, w * h), plane_code(px, w, h).len()),
        ),
{
    if w >= 1 {
        lemma_decode_prefix(px, w, w * h, w * h, rest);
    } else {
        assert(raster(px, w, w * h) =~= Seq::<u16>::empty());
    }
}

/// What `FixedPredictionCodec::decode` reads back from a stream that begins with
/// what its `encode` wrote for a plane is that plane's samples in raster order, and
/// it consumes exactly the plane's code.
pub proof fn lemma_codec_round_trip(
    codec: FixedPredictionCodec,
    px: spec_fn(int, int) -> u16,
    w: nat,
    h: nat,
    rest: Seq<bool>,
)
    ensures
        codec.decoding(codec.code(px, w, h) + rest, w, h) == Some(
            (raster(px, w, w * h), codec.code(px, w, h).len()),
        ),
{
    lemma_plane_round_trip(px, w, h, rest);
}

/// `n` bits padded to whole bytes fill `ceil(n / 8)` bytes.
pub proof fn lemma_padded_bytes(n: nat, bytes: nat)
    requires
        8 * bytes == n + pad_len(n),
    ensures
        bytes == (n + 7) / 8,
{
    assert(bytes == (n + 7) / 8) by (nonlinear_arith)
        requires 8 * bytes == n + ((8 - n % 8) % 8) as nat;
}

/// Once a codeword is cut short, decoding more samples fails too.
proof fn lemma_decode_none(s: Seq<bool>, w: nat, n: nat, m: nat)
    requires
        n <= m,
        decode_pixels(s, w, n) is None,
    ensures
        decode_pixels(s, w, m) is None,
    decreases m - n,
{
    if n < m {
        lemma_decode_none(s, w, n, (m - 1) as nat);
    }
}

impl Codec for FixedPredictionCodec {
    open spec fn code(&self, px: spec_fn(int, int) -> u16, w: nat, h: nat) -> Seq<bool> {
        plane_code(px, w, h)
    }

    open spec fn decoding(&self, s: Seq<bool>, w: nat, h: nat) -> Option<(Seq<u16>, nat)> {
        decode_pixels(s, w, w * h)
    }

    fn encode(&self, plane: &Plane, dest: Vec<u8>) -> (r: Vec<u8>) {
        let ghost px = plane.pixels();
        let ghost d0 = dest@;
        let width: usize = plane.width;
        let height: usize = plane.height;
        let ghost w: int = width as int;
        let mut bitstream = StreamWriter::new(dest);
        let mut b: u16 = 0;
        let mut row: usize = 0;
        while row < height
            invariant
                plane.wf(),
                width == plane.width,
                height == plane.height,
                px == plane.pixels(),
                w == width,
                row <= height,
                bitstream.wf(),
                d0.is_prefix_of(bitstream.bytes_view()),
                bitstream.bits() == bytes_bits(d0) + code_prefix(px, w as nat, (row * w) as nat),
                width > 0 ==> b == ctx_b(px, w, 0, row as int),
            decreases height - row,
        {
            let mut a: u16 = 0;
            let mut c: u16 = 0;
            let mut col: usize = 0;
            while col < width
                invariant
                    plane.wf(),
                    width == plane.width,
                    height == plane.height,
                    px == plane.pixels(),
                    w == width,
                    row < height,
                    col <= width,
                    bitstream.wf(),
                    d0.is_prefix_of(bitstream.bytes_view()),
                    bitstream.bits() == bytes_bits(d0) + code_prefix(px, w as nat, (row * w + col) as nat),
                    col < width ==> a == ctx_a(px, w, col as int, row as int),
                    col < width ==> b == ctx_b(px, w, col as int, row as int),
                    col < width ==> c == ctx_c(px, w, col as int, row as int),
                decreases width - col,
            {
                let x: u16 = plane.sample(col, row);
                let d: u16 = if row > 0 && col + 1 < width {
                    plane.sample(col + 1, row - 1)
                } else {
                    0
                };
                let prediction: i32 = self.fixed_prediction(a, b, c);
                let prediction_residual: i32 = x as i32 - prediction;
                let k: u32 = rice_compute_k(a, b, c, d);
                proof {
                    lemma_rice_k(a, b, c, d, k as nat);
                    lemma_raster(w, col as int, row as int);
                }
                rice_encode_value(k, prediction_residual, &mut bitstream);
                proof {
                    let n = row * w + col;
                    assert(code_prefix(px, w as nat, (n + 1) as nat) == code_prefix(px, w as nat, n as nat)
                        + pixel_code(px, w, col as int, row as int));
                    assert(bitstream.bits() =~= bytes_bits(d0) + code_prefix(px, w as nat, (n + 1) as nat));
                }
                c = b;
                b = d;
                a = x;
                col = col + 1;
            }
            if width > 0 {
                b = plane.sample(0, row);
            }
            proof {
                assert((row + 1) * w == row * w + w) by (nonlinear_arith);
            }
            row = row + 1;
        }
        proof {
            bitstream.lemma_layout();
            assert(height * w == w * height) by (nonlinear_arith);
        }
        let ghost bw = bitstream;
        let r = bitstream.finish();
        proof {
            let code = plane_code(px, w as nat, height as nat);
            lemma_bytes_bits_len(d0);
            lemma_bytes_bits_len(bw.bytes_view());
            assert(bw.pending().len() == code.len() % 8) by (nonlinear_arith)
                requires
                    bw.bits().len() == 8 * bw.bytes_view().len() + bw.pending().len(),
                    bw.pending().len() < 8,
                    bw.bits().len() == 8 * d0.len() + code.len(),
                    bw.bytes_view().len() >= d0.len();
            let tail = r@.skip(d0.len() as int);
            assert(r@ =~= d0 + tail);
            lemma_bytes_bits_append(d0, tail);
            let full = bytes_bits(d0) + bytes_bits(tail);
            assert(bytes_bits(tail) =~= full.skip(bytes_bits(d0).len() as int));
            assert(bytes_bits(tail) =~= code + zeros(pad_len(code.len())));
            lemma_bytes_bits_len(tail);
            lemma_padded_bytes(code.len(), tail.len());
        }
        r
    }

    fn decode(&self, source: &mut StreamReader, width: usize, height: usize) -> (r: Result<
        Vec<u16>,
        StreamError,
    >) {
        let ghost s = source.remaining();
        let ghost start = source.position();
        let ghost w: int = width as int;
        let mut data: Vec<u16> = Vec::new();
        let mut b: u16 = 0;
        let mut row: usize = 0;
        proof {
            old(source).lemma_layout();
        }
        while row < height
            invariant
                source.wf(),
                source.source() == old(source).source(),
                old(source).wf(),
                s == old(source).remaining(),
                start == old(source).position(),
                w == width,
                width * height <= usize::MAX,
                row <= height,
                data@.len() == row * w,
                start <= source.position(),
                decode_pixels(s, w as nat, (row * w) as nat) == Some(
                    (data@, (source.position() - start) as nat),
                ),
                width > 0 ==> b == ctx_b(raster_px(data@, w), w, 0, row as int),
            decreases height - row,
        {
            let mut a: u16 = 0;
            let mut c: u16 = 0;
            let mut col: usize = 0;
            proof {
                assert(row * w + w <= width * height) by (nonlinear_arith)
                    requires row < height, w == width, 0 <= w;
            }
            while col < width
                invariant
                    source.wf(),
                    source.source() == old(source).source(),
                    old(source).wf(),
                    s == old(source).remaining(),
                    start == old(source).position(),
                    w == width,
                    width * height <= usize::MAX,
                    row < height,
                    col <= width,
                    data@.len() == row * w + col,
                    row * w + w <= width * height,
                    start <= source.position(),
                    decode_pixels(s, w as nat, (row * w + col) as nat) == Some(
                        (data@, (source.position() - start) as nat),
                    ),
                    col < width ==> a == ctx_a(raster_px(data@, w), w, col as int, row as int),
                    col < width ==> b == ctx_b(raster_px(data@, w), w, col as int, row as int),
                    col < width ==> c == ctx_c(raster_px(data@, w), w, col as int, row as int),
                decreases width - col,
            {
                proof {
                    lemma_raster(w, col as int, row as int);
                    assert(row * w + w == (row + 1) * w) by (nonlinear_arith);
                }
                let d: u16 = if row > 0 && col + 1 < width {
                    proof {
                        assert((row - 1) * w == row * w - w) by (nonlinear_arith);
                    }
                    data[(row - 1) * width + col + 1]
                } else {
                    0
                };
                let prediction: i32 = self.fixed_prediction(a, b, c);
                let k: u32 = rice_compute_k(a, b, c, d);
                proof {
                    lemma_rice_k(a, b, c, d, k as nat);
                    source.lemma_layout();
                    old(source).lemma_layout();
                    assert(source.remaining() =~= s.skip(source.position() - start));
                }
                let ghost pos = (source.position() - start) as nat;
                let ghost g = data@;
                let prediction_residual: i32 = match rice_decode_value(k, source) {
                    Ok(v) => v,
                    Err(e) => {
                        proof {
                            lemma_decode_step_none(s, w, col as int, row as int, data@, pos, k as nat);
                            assert(row * w + col + 1 <= w * height) by (nonlinear_arith)
                                requires row * w + w <= width * height, col < width, w == width;
                            lemma_decode_none(s, w as nat, (row * w + col + 1) as nat, (w * height) as nat);
                        }
                        return Err(e);
                    },
                };
                let v: i64 = prediction as i64 + prediction_residual as i64;
                let x: u16 = ((v + 0x8000_0000) % 0x10000) as u16;
                proof {
                    lemma_mod_multiples_vanish(0x8000, v as int, 0x10000);
                    assert(x == wrap16(v as int));
                }
                data.push(x);
                proof {
                    lemma_decode_step(s, w, col as int, row as int, g, pos, k as nat, x);
                    assert((source.position() - start) as nat == pos + zero_run(s.skip(pos as int)) + 1 + k);
                }
                c = b;
                b = d;
                a = x;
                col = col + 1;
            }
            if width > 0 {
                proof {
                    assert(row * w < (row + 1) * w) by (nonlinear_arith)
                        requires w > 0;
                }
                b = data[row * width];
            }
            proof {
                assert((row + 1) * w == row * w + w) by (nonlinear_arith);
            }
            row = row + 1;
        }
        proof {
            assert(height * w == w * height) by (nonlinear_arith);
        }
        let ghost before_align = source.position();
        source.align();
        proof {
            let n = (before_align - start) as nat;
            assert(before_align % 8 == n % 8) by (nonlinear_arith)
                requires start % 8 == 0, before_align == start + n;
            assert(decode_pixels(s, w as nat, (w * height) as nat) == Some((data@, n)));
            assert(self.decoding(s, width as nat, height as nat) == Some((data@, n)) && source.position()
                == start + n + pad_len(n));
        }
        Ok(data)
    }
}

} // verus!
