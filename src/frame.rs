use vstd::prelude::*;
use vstd::slice::slice_subrange;
use crate::bits::{bytes_bits, zeros, lemma_bytes_bits_append, lemma_bytes_bits_len};
use crate::codec::{Codec, pad_len};
use crate::stream::{StreamError, StreamReader};

verus! {

/// One channel of a raster seen through strides into a sample buffer.
pub struct Plane<'a> {
    pub data: &'a [u16],
    pub width: usize,
    pub height: usize,
    pub sample_stride: usize,
    pub row_stride: usize,
}

impl<'a> Plane<'a> {
    /// The buffer holds every sample that the geometry addresses.
    pub open spec fn wf(&self) -> bool {
        self.width == 0 || self.height == 0 || (self.height - 1) * self.row_stride + (
        self.width - 1) * self.sample_stride < self.data@.len()
    }

    /// Where the sample at column `col` of row `row` lies in the buffer.
    pub open spec fn index(&self, col: int, row: int) -> int {
        row * self.row_stride + col * self.sample_stride
    }

    /// The sample at column `col` of row `row`.
    pub open spec fn at(&self, col: int, row: int) -> u16 {
        self.data@[self.index(col, row)]
    }

    /// The plane's samples as a function of column and row.
    pub open spec fn pixels(&self) -> spec_fn(int, int) -> u16 {
        |col: int, row: int|
            if 0 <= col < self.width && 0 <= row < self.height {
                self.at(col, row)
            } else {
                0
            }
    }

    /// Every sample of a consistent plane lies inside the buffer.
    pub proof fn lemma_index(&self, col: int, row: int)
        requires
            self.wf(),
            0 <= col < self.width,
            0 <= row < self.height,
        ensures
            0 <= row * self.row_stride <= self.index(col, row) < self.data@.len(),
            0 <= col * self.sample_stride <= self.index(col, row),
    {
        let h = self.height as int;
        let w = self.width as int;
        let rs = self.row_stride as int;
        let ss = self.sample_stride as int;
        assert(0 <= row * rs <= (h - 1) * rs) by (nonlinear_arith)
            requires 0 <= row <= h - 1, rs >= 0;
        assert(0 <= col * ss <= (w - 1) * ss) by (nonlinear_arith)
            requires 0 <= col <= w - 1, ss >= 0;
    }

    /// The sample at column `col` of row `row`.
    pub fn sample(&self, col: usize, row: usize) -> (r: u16)
        requires
            self.wf(),
            col < self.width,
            row < self.height,
        ensures
            r == self.at(col as int, row as int),
    {
        let len: usize = self.data.len();
        proof {
            self.lemma_index(col as int, row as int);
            assert(self.index(col as int, row as int) < len);
        }
        self.data[row * self.row_stride + col * self.sample_stride]
    }
}

/// A bit stream padded with zero bits to a whole number of bytes.
pub open spec fn padded(s: Seq<bool>) -> Seq<bool> {
    s + zeros(pad_len(s.len()))
}

/// What decoding three planes in turn from `s` yields, each starting on a byte
/// boundary: their raster-order samples.
pub open spec fn planes_decoding<C: Codec>(c: &C, s: Seq<bool>, w: nat, h: nat) -> Option<
    (Seq<u16>, Seq<u16>, Seq<u16>),
> {
    match c.decoding(s, w, h) {
        None => None,
        Some((g0, n0)) => {
            let s1 = s.skip((n0 + pad_len(n0)) as int);
            match c.decoding(s1, w, h) {
                None => None,
                Some((g1, n1)) => {
                    let s2 = s1.skip((n1 + pad_len(n1)) as int);
                    match c.decoding(s2, w, h) {
                        None => None,
                        Some((g2, n2)) => Some((g0, g1, g2)),
                    }
                },
            }
        },
    }
}

proof fn lemma_extend(d: Seq<u8>, o1: Seq<u8>, o2: Seq<u8>)
    requires
        d.is_prefix_of(o1),
        o1.is_prefix_of(o2),
    ensures
        d.is_prefix_of(o2),
        bytes_bits(o2.skip(d.len() as int)) == bytes_bits(o1.skip(d.len() as int)) + bytes_bits(
            o2.skip(o1.len() as int),
        ),
{
    assert(o2.skip(d.len() as int) =~= o1.skip(d.len() as int) + o2.skip(o1.len() as int));
    lemma_bytes_bits_append(o1.skip(d.len() as int), o2.skip(o1.len() as int));
    assert(d =~= o2.subrange(0, d.len() as int));
}

proof fn lemma_pad_aligns(base: nat, n: nat)
    requires
        base % 8 == 0,
    ensures
        (base + n + pad_len(n)) % 8 == 0,
{
    assert((base + n + pad_len(n)) % 8 == 0) by (nonlinear_arith)
        requires base % 8 == 0, pad_len(n) == ((8 - n % 8) % 8) as nat;
}

/// A three-channel raster of 16-bit samples, channels interleaved sample by sample.
#[derive(PartialEq, Eq, Debug)]
pub struct RGB48Frame {
    pub data: Vec<u16>,
    pub width: usize,
    pub height: usize,
}

impl RGB48Frame {
    /// The buffer holds exactly three samples per pixel, and a row's stride fits a `usize`.
    pub open spec fn wf(&self) -> bool {
        &&& self.data@.len() == 3 * self.width * self.height
        &&& 3 * self.width <= usize::MAX
    }

    /// Channel `p` as a function of column and row.
    pub open spec fn channel(&self, p: int) -> spec_fn(int, int) -> u16 {
        |col: int, row: int|
            if 0 <= col < self.width && 0 <= row < self.height {
                self.data@[row * (3 * self.width) + col * 3 + p]
            } else {
                0
            }
    }

    /// The three channels, each as a plane into the shared buffer.
    pub fn planes(&self) -> (r: Vec<Plane<'_>>)
        requires
            self.wf(),
        ensures
            r@.len() == 3,
            forall|p: int|
                0 <= p < 3 ==> {
                    &&& (#[trigger] r@[p]).wf()
                    &&& r@[p].width == self.width
                    &&& r@[p].height == self.height
                    &&& r@[p].sample_stride == 3
                    &&& r@[p].row_stride == 3 * self.width
                    &&& r@[p].pixels() == self.channel(p)
                },
    {
        let mut r: Vec<Plane<'_>> = Vec::new();
        let len: usize = self.data.len();
        let mut p: usize = 0;
        while p < 3
            invariant
                self.wf(),
                len == self.data@.len(),
                p <= 3,
                r@.len() == p,
                forall|q: int|
                    0 <= q < p ==> {
                        &&& (#[trigger] r@[q]).wf()
                        &&& r@[q].width == self.width
                        &&& r@[q].height == self.height
                        &&& r@[q].sample_stride == 3
                        &&& r@[q].row_stride == 3 * self.width
                        &&& r@[q].pixels() == self.channel(q)
                    },
            decreases 3 - p,
        {
            let start: usize = if p <= len { p } else { len };
            let plane = Plane {
                data: slice_subrange(self.data.as_slice(), start, len),
                width: self.width,
                height: self.height,
                sample_stride: 3,
                row_stride: 3 * self.width,
            };
            proof {
                let w = self.width as int;
                let h = self.height as int;
                if w > 0 && h > 0 {
                    assert((h - 1) * (3 * w) + (w - 1) * 3 + p < 3 * w * h) by (nonlinear_arith)
                        requires w > 0, h > 0, p < 3;
                    assert(start == p);
                }
                assert forall|col: int, row: int|
                    plane.pixels()(col, row) == #[trigger] self.channel(p as int)(col, row) by {
                    if 0 <= col < w && 0 <= row < h {
                        assert(0 <= row * (3 * w)) by (nonlinear_arith)
                            requires 0 <= row, 0 <= w;
                        assert(row * (3 * w) + col * 3 <= (h - 1) * (3 * w) + (w - 1) * 3) by (nonlinear_arith)
                            requires 0 <= row < h, 0 <= col < w;
                        assert(w > 0 && h > 0);
                    }
                }
                assert(plane.pixels() =~= self.channel(p as int));
            }
            r.push(plane);
            p = p + 1;
        }
        r
    }

    /// Appends the three channels, each encoded and padded on its own, to `dest`.
    pub fn encode<C: Codec>(&self, dest: Vec<u8>, c: &C) -> (r: Vec<u8>)
        requires
            self.wf(),
        ensures
            dest@.is_prefix_of(r@),
            bytes_bits(r@.skip(dest@.len() as int)) == padded(
                c.code(self.channel(0), self.width as nat, self.height as nat),
            ) + padded(c.code(self.channel(1), self.width as nat, self.height as nat)) + padded(
                c.code(self.channel(2), self.width as nat, self.height as nat),
            ),
            r@.len() == dest@.len() + (c.code(self.channel(0), self.width as nat, self.height as nat).len()
                + 7) / 8 + (c.code(self.channel(1), self.width as nat, self.height as nat).len() + 7) / 8
                + (c.code(self.channel(2), self.width as nat, self.height as nat).len() + 7) / 8,
    {
        let len: usize = self.data.len();
        let planes = self.planes();
        proof {
            let w = self.width as int;
            let h = self.height as int;
            assert(w * h <= 3 * w * h) by (nonlinear_arith)
                requires w >= 0, h >= 0;
            assert(planes@[0].pixels() == self.channel(0));
            assert(planes@[1].pixels() == self.channel(1));
            assert(planes@[2].pixels() == self.channel(2));
        }
        let o1 = c.encode(&planes[0], dest);
        let o2 = c.encode(&planes[1], o1);
        let o3 = c.encode(&planes[2], o2);
        proof {
            lemma_extend(dest@, o1@, o2@);
            lemma_extend(dest@, o2@, o3@);
            assert(dest@.skip(dest@.len() as int) =~= Seq::<u8>::empty());
        }
        o3
    }

    /// Decodes a `width` by `height` frame of three planes from `source`.
    pub fn decode<C: Codec>(&self, source: &[u8], width: usize, height: usize, c: &C) -> (r: Result<
        RGB48Frame,
        StreamError,
    >)
        requires
            3 * width * height <= usize::MAX,
            3 * width <= usize::MAX,
        ensures
            match r {
                Ok(f) => {
                    &&& f.wf()
                    &&& f.width == width
                    &&& f.height == height
                    &&& planes_decoding(c, bytes_bits(source@), width as nat, height as nat) is Some
                    &&& forall|i: int|
                        #![trigger f.data@[3 * i]]
                        0 <= i < width * height ==> {
                            let (g0, g1, g2) = planes_decoding(
                                c,
                                bytes_bits(source@),
                                width as nat,
                                height as nat,
                            )->Some_0;
                            &&& f.data@[3 * i] == g0[i]
                            &&& f.data@[3 * i + 1] == g1[i]
                            &&& f.data@[3 * i + 2] == g2[i]
                        }
                },
                Err(e) => planes_decoding(c, bytes_bits(source@), width as nat, height as nat) is None
                    && e == StreamError::UnexpectedEof,
            },
    {
        let mut reader = StreamReader::new(source);
        let ghost s = bytes_bits(source@);
        proof {
            assert(width * height <= 3 * width * height) by (nonlinear_arith);
            reader.lemma_layout();
        }
        let g0 = match c.decode(&mut reader, width, height) {
            Ok(g) => g,
            Err(e) => {
                return Err(e);
            },
        };
        let ghost n0 = choose|n: nat| c.decoding(s, width as nat, height as nat) == Some((g0@, n));
        proof {
            lemma_pad_aligns(0, n0);
            reader.lemma_layout();
            assert(reader.remaining() =~= s.skip((n0 + pad_len(n0)) as int));
        }
        let ghost s1 = reader.remaining();
        let g1 = match c.decode(&mut reader, width, height) {
            Ok(g) => g,
            Err(e) => {
                return Err(e);
            },
        };
        let ghost n1 = choose|n: nat| c.decoding(s1, width as nat, height as nat) == Some((g1@, n));
        proof {
            lemma_pad_aligns((n0 + pad_len(n0)) as nat, n1);
            reader.lemma_layout();
            assert(reader.remaining() =~= s1.skip((n1 + pad_len(n1)) as int));
        }
        let g2 = match c.decode(&mut reader, width, height) {
            Ok(g) => g,
            Err(e) => {
                return Err(e);
            },
        };
        let ghost g = (g0@, g1@, g2@);
        assert(planes_decoding(c, s, width as nat, height as nat) == Some(g));
        let n: usize = width * height;
        let mut data: Vec<u16> = Vec::new();
        let mut i: usize = 0;
        while i < n
            invariant
                n == width * height,
                3 * width * height <= usize::MAX,
                g0@.len() == n,
                g1@.len() == n,
                g2@.len() == n,
                i <= n,
                data@.len() == 3 * i,
                forall|j: int|
                    #![trigger data@[3 * j]]
                    0 <= j < i ==> data@[3 * j] == g0@[j] && data@[3 * j + 1] == g1@[j] && data@[3 * j
                        + 2] == g2@[j],
            decreases n - i,
        {
            let ghost before = data@;
            data.push(g0[i]);
            data.push(g1[i]);
            data.push(g2[i]);
            proof {
                assert forall|j: int| 0 <= j <= i implies #[trigger] data@[3 * j] == g0@[j]
                    && data@[3 * j + 1] == g1@[j] && data@[3 * j + 2] == g2@[j] by {
                    if j < i {
                        assert(data@[3 * j] == before[3 * j]);
                        assert(data@[3 * j + 1] == before[3 * j + 1]);
                        assert(data@[3 * j + 2] == before[3 * j + 2]);
                    }
                }
            }
            i = i + 1;
        }
        let f = RGB48Frame { data, width, height };
        proof {
            assert(3 * width * height == 3 * n) by (nonlinear_arith)
                requires n == width * height;
        }
        Ok(f)
    }
}

} // verus!
