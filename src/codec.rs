//! The binary chunk of a quantized matrix: encoding, decoding, and the laws
//! that relate them.

use vstd::prelude::*;

use crate::bytes::{
    le_u32_bytes, le_u32s_bytes, le_u64_bytes, lemma_le_u32_round_trip, lemma_le_u32s_bytes_push,
    lemma_le_u32s_round_trip, lemma_le_u64_round_trip, push_u32, push_u64, read_u32_at,
    read_u64_at, u32_at, u32s_at, u64_at,
};
use crate::chunk::{padding, padding_for, ChunkError, F32_TYPE, QUANTIZED_ARRAY_CHUNK, U8_TYPE};
use crate::quantized::{
    lemma_absent_parts_empty, opt_view, QuantizedArray, Quantizer, HEADER_LEN,
};

verus! {

/// A flag as a chunk header stores it: 1 where set, 0 where clear.
pub open spec fn flag(b: bool) -> u32 {
    if b {
        1
    } else {
        0
    }
}

impl QuantizedArray {
    /// The chunk type tag that this matrix is written with.
    pub fn chunk_identifier(&self) -> (r: u32)
        ensures
            r == QUANTIZED_ARRAY_CHUNK,
    {
        QUANTIZED_ARRAY_CHUNK
    }

    /// Padding before the float data of a chunk that starts at offset `start`.
    pub open spec fn chunk_padding(start: int) -> int {
        padding_for(4, start + HEADER_LEN)
    }

    /// The payload length that the header declares.
    pub open spec fn payload_len(&self, start: int) -> int {
        HEADER_LEN - 12 + Self::chunk_padding(start) + self.data_len()
    }

    /// The header: type tag, payload length, the two flags, the dimensions
    /// and the two element type tags.
    pub open spec fn header_bytes(&self, start: int) -> Seq<u8> {
        let qz = self.spec_quantizer();
        le_u32_bytes(QUANTIZED_ARRAY_CHUNK) + le_u64_bytes(self.payload_len(start) as u64)
            + le_u32_bytes(flag(qz.spec_has_projection())) + le_u32_bytes(
            flag(self.spec_has_norms()),
        ) + le_u32_bytes(qz.spec_quantized_len() as u32) + le_u32_bytes(
            qz.spec_reconstructed_len() as u32,
        ) + le_u32_bytes(qz.spec_n_centroids() as u32) + le_u64_bytes(self.spec_rows() as u64)
            + le_u32_bytes(U8_TYPE) + le_u32_bytes(F32_TYPE)
    }

    /// The chunk that encodes this matrix, when it starts at stream offset `start`.
    pub open spec fn chunk_bytes(&self, start: int) -> Seq<u8> {
        let qz = self.spec_quantizer();
        self.header_bytes(start) + Seq::new(Self::chunk_padding(start) as nat, |i: int| 0u8)
            + le_u32s_bytes(qz.projection_view()) + le_u32s_bytes(qz.subquantizers_view())
            + le_u32s_bytes(self.norms_view()) + self.codes()
    }
}

/// Whether a chunk in `b` declares a projection matrix.
pub open spec fn chunk_has_projection(b: Seq<u8>) -> bool {
    u32_at(b, 12) != 0
}

/// Whether a chunk in `b` declares per-row norms.
pub open spec fn chunk_has_norms(b: Seq<u8>) -> bool {
    u32_at(b, 16) != 0
}

/// The number of subquantizers that a chunk in `b` declares.
pub open spec fn chunk_quantized_len(b: Seq<u8>) -> int {
    u32_at(b, 20) as int
}

/// The reconstructed vector length that a chunk in `b` declares.
pub open spec fn chunk_reconstructed_len(b: Seq<u8>) -> int {
    u32_at(b, 24) as int
}

/// The number of centroids per codebook that a chunk in `b` declares.
pub open spec fn chunk_n_centroids(b: Seq<u8>) -> int {
    u32_at(b, 28) as int
}

/// The number of rows that a chunk in `b` declares.
pub open spec fn chunk_rows(b: Seq<u8>) -> int {
    u64_at(b, 32) as int
}

/// Offset of the projection matrix, after the header and its padding.
pub open spec fn chunk_projection_at(start: int) -> int {
    HEADER_LEN + padding_for(4, start + HEADER_LEN)
}

pub open spec fn chunk_projection_count(b: Seq<u8>) -> int {
    if chunk_has_projection(b) {
        chunk_reconstructed_len(b) * chunk_reconstructed_len(b)
    } else {
        0
    }
}

/// Floats in all codebooks: one codebook of `k * (d / m)` floats per subquantizer.
pub open spec fn chunk_subquantizers_count(b: Seq<u8>) -> int {
    let m = chunk_quantized_len(b);
    if m == 0 {
        0
    } else {
        m * (chunk_n_centroids(b) * (chunk_reconstructed_len(b) / m))
    }
}

pub open spec fn chunk_norms_count(b: Seq<u8>) -> int {
    if chunk_has_norms(b) {
        chunk_rows(b)
    } else {
        0
    }
}

pub open spec fn chunk_subquantizers_at(b: Seq<u8>, start: int) -> int {
    chunk_projection_at(start) + 4 * chunk_projection_count(b)
}

pub open spec fn chunk_norms_at(b: Seq<u8>, start: int) -> int {
    chunk_subquantizers_at(b, start) + 4 * chunk_subquantizers_count(b)
}

pub open spec fn chunk_codes_at(b: Seq<u8>, start: int) -> int {
    chunk_norms_at(b, start) + 4 * chunk_norms_count(b)
}

/// Offset just past the chunk: the end of its codes.
pub open spec fn chunk_end(b: Seq<u8>, start: int) -> int {
    chunk_codes_at(b, start) + chunk_rows(b) * chunk_quantized_len(b)
}

/// The dimensions agree and every code indexes a centroid.
pub open spec fn chunk_shape_ok(b: Seq<u8>, start: int) -> bool {
    let m = chunk_quantized_len(b);
    &&& m != 0
    &&& chunk_reconstructed_len(b) % m == 0
    &&& forall|i: int|
        0 <= i < chunk_rows(b) * m ==> (#[trigger] chunk_codes(b, start)[i] as int)
            < chunk_n_centroids(b)
}

/// The codes of a chunk, row after row.
pub open spec fn chunk_codes(b: Seq<u8>, start: int) -> Seq<u8> {
    b.subrange(chunk_codes_at(b, start), chunk_end(b, start))
}

/// The error with which decoding a chunk that starts at stream offset `start`
/// fails, checked in the order in which the chunk is read; `None` where it
/// succeeds.
pub open spec fn chunk_error(b: Seq<u8>, start: int) -> Option<ChunkError> {
    if b.len() < 4 {
        Some(ChunkError::UnexpectedEnd)
    } else if u32_at(b, 0) != QUANTIZED_ARRAY_CHUNK {
        Some(ChunkError::TypeMismatch { expected: QUANTIZED_ARRAY_CHUNK, found: u32_at(b, 0) })
    } else if b.len() < 44 {
        Some(ChunkError::UnexpectedEnd)
    } else if u32_at(b, 40) != U8_TYPE {
        Some(ChunkError::TypeMismatch { expected: U8_TYPE, found: u32_at(b, 40) })
    } else if b.len() < 48 {
        Some(ChunkError::UnexpectedEnd)
    } else if u32_at(b, 44) != F32_TYPE {
        Some(ChunkError::TypeMismatch { expected: F32_TYPE, found: u32_at(b, 44) })
    } else if b.len() < chunk_end(b, start) {
        Some(ChunkError::UnexpectedEnd)
    } else if !chunk_shape_ok(b, start) {
        Some(ChunkError::Shape)
    } else {
        None
    }
}

impl QuantizedArray {
    /// This matrix holds exactly what the chunk in `b` declares.
    pub open spec fn decoded_from(&self, b: Seq<u8>, start: int) -> bool {
        let qz = self.spec_quantizer();
        &&& qz.spec_has_projection() == chunk_has_projection(b)
        &&& qz.projection_view() == u32s_at(
            b,
            chunk_projection_at(start),
            chunk_projection_count(b),
        )
        &&& qz.subquantizers_view() == u32s_at(
            b,
            chunk_subquantizers_at(b, start),
            chunk_subquantizers_count(b),
        )
        &&& qz.spec_quantized_len() == chunk_quantized_len(b)
        &&& qz.spec_reconstructed_len() == chunk_reconstructed_len(b)
        &&& qz.spec_n_centroids() == chunk_n_centroids(b)
        &&& self.spec_has_norms() == chunk_has_norms(b)
        &&& self.norms_view() == u32s_at(b, chunk_norms_at(b, start), chunk_norms_count(b))
        &&& self.spec_rows() == chunk_rows(b)
        &&& self.codes() == chunk_codes(b, start)
    }
}

proof fn lemma_codebooks_len(m: int, k: int, d: int)
    requires
        m > 0,
        k >= 0,
        d >= 0,
        d % m == 0,
    ensures
        m * (k * (d / m)) == k * d,
{
    vstd::arithmetic::div_mod::lemma_fundamental_div_mod(d, m);
    assert(m * (k * (d / m)) == k * (m * (d / m))) by (nonlinear_arith);
}

proof fn lemma_codebooks_bound(m: int, k: int, d: int)
    requires
        m > 0,
        0 <= k <= u32::MAX,
        0 <= d <= u32::MAX,
    ensures
        0 <= m * (k * (d / m)) <= k * d,
        0 <= k * (d / m) <= k * d,
        k * d <= u64::MAX,
{
    vstd::arithmetic::div_mod::lemma_fundamental_div_mod(d, m);
    assert(0 <= d / m);
    assert(m * (d / m) <= d);
    assert(d / m <= d) by (nonlinear_arith)
        requires
            m * (d / m) <= d,
            0 <= d / m,
            m > 0,
    ;
    assert(0 <= m * (k * (d / m)) <= k * d) by (nonlinear_arith)
        requires
            m * (d / m) <= d,
            0 <= d / m,
            m > 0,
            k >= 0,
    ;
    assert(0 <= k * (d / m) <= k * d) by (nonlinear_arith)
        requires
            d / m <= d,
            0 <= d / m,
            k >= 0,
    ;
    assert(k * d <= u64::MAX) by (nonlinear_arith)
        requires
            0 <= k <= u32::MAX,
            0 <= d <= u32::MAX,
    ;
}

/// Reads `count` little-endian `u32` values from offset `at`, where the data holds them.
fn read_u32s(b: &[u8], at: usize, count: u64) -> (r: Option<Vec<u32>>)
    requires
        at <= b@.len(),
    ensures
        match r {
            Some(v) => at + 4 * count <= b@.len() && v@ == u32s_at(b@, at as int, count as int),
            None => at + 4 * count > b@.len(),
        },
{
    let len = b.len();
    if count > ((len - at) / 4) as u64 {
        return None;
    }
    let c = count as usize;
    let mut v: Vec<u32> = Vec::new();
    let mut i: usize = 0;
    while i < c
        invariant
            i <= c,
            c == count,
            at + 4 * c <= b@.len(),
            b@.len() == len,
            v@ == u32s_at(b@, at as int, i as int),
        decreases c - i,
    {
        v.push(read_u32_at(b, at + 4 * i));
        assert(v@ =~= u32s_at(b@, at as int, i + 1));
        i = i + 1;
    }
    Some(v)
}

/// Copies `count` bytes from offset `at`, where the data holds them.
fn read_bytes(b: &[u8], at: usize, count: u64) -> (r: Option<Vec<u8>>)
    requires
        at <= b@.len(),
    ensures
        match r {
            Some(v) => at + count <= b@.len() && v@ == b@.subrange(at as int, at + count),
            None => at + count > b@.len(),
        },
{
    let len = b.len();
    if count > (len - at) as u64 {
        return None;
    }
    let c = count as usize;
    let mut v: Vec<u8> = Vec::new();
    let mut i: usize = 0;
    while i < c
        invariant
            i <= c,
            c == count,
            at + c <= b@.len(),
            b@.len() == len,
            v@ == b@.subrange(at as int, at + i),
        decreases c - i,
    {
        v.push(b[at + i]);
        assert(v@ =~= b@.subrange(at as int, at + i + 1));
        i = i + 1;
    }
    Some(v)
}

/// Appends the little-endian bytes of each value of `v`.
fn push_u32s(out: &mut Vec<u8>, v: &Vec<u32>)
    ensures
        final(out)@ == old(out)@ + le_u32s_bytes(v@),
{
    let mut i: usize = 0;
    while i < v.len()
        invariant
            i <= v@.len(),
            out@ == old(out)@ + le_u32s_bytes(v@.subrange(0, i as int)),
        decreases v.len() - i,
    {
        proof {
            lemma_le_u32s_bytes_push(v@.subrange(0, i as int), v@[i as int]);
            assert(v@.subrange(0, i + 1) =~= v@.subrange(0, i as int).push(v@[i as int]));
        }
        push_u32(out, v[i]);
        i = i + 1;
    }
    assert(v@.subrange(0, v@.len() as int) =~= v@);
}

/// Appends the bytes of `v`.
fn push_bytes(out: &mut Vec<u8>, v: &Vec<u8>)
    ensures
        final(out)@ == old(out)@ + v@,
{
    let mut i: usize = 0;
    while i < v.len()
        invariant
            i <= v@.len(),
            out@ == old(out)@ + v@.subrange(0, i as int),
        decreases v.len() - i,
    {
        out.push(v[i]);
        assert(v@.subrange(0, i + 1) =~= v@.subrange(0, i as int).push(v@[i as int]));
        i = i + 1;
    }
    assert(v@.subrange(0, v@.len() as int) =~= v@);
}

impl QuantizedArray {
    /// Decodes the chunk at the start of `b`, which lies at stream offset
    /// `start`.
    ///
    /// Fails with the first problem met while reading: data that ends early,
    /// a type tag other than the supported one, or dimensions that disagree.
    pub fn read_chunk(b: &[u8], start: u64) -> (r: Result<QuantizedArray, ChunkError>)
        requires
            b@.len() + 3 <= usize::MAX,
        ensures
            match r {
                Ok(q) => chunk_error(b@, start as int) is None && q.wf() && q.decoded_from(
                    b@,
                    start as int,
                ),
                Err(e) => chunk_error(b@, start as int) == Some(e),
            },
            b@.len() >= 4 && u32_at(b@, 0) != QUANTIZED_ARRAY_CHUNK ==> r == Err::<
                QuantizedArray,
                ChunkError,
            >(ChunkError::TypeMismatch { expected: QUANTIZED_ARRAY_CHUNK, found: u32_at(b@, 0) }),
    {
        let len = b.len();
        if len < 4 {
            return Err(ChunkError::UnexpectedEnd);
        }
        let tag = read_u32_at(b, 0);
        if tag != QUANTIZED_ARRAY_CHUNK {
            return Err(ChunkError::TypeMismatch { expected: QUANTIZED_ARRAY_CHUNK, found: tag });
        }
        if len < 44 {
            return Err(ChunkError::UnexpectedEnd);
        }
        let code_type = read_u32_at(b, 40);
        if code_type != U8_TYPE {
            return Err(ChunkError::TypeMismatch { expected: U8_TYPE, found: code_type });
        }
        if len < 48 {
            return Err(ChunkError::UnexpectedEnd);
        }
        let float_type = read_u32_at(b, 44);
        if float_type != F32_TYPE {
            return Err(ChunkError::TypeMismatch { expected: F32_TYPE, found: float_type });
        }
        let has_projection = read_u32_at(b, 12) != 0;
        let has_norms = read_u32_at(b, 16) != 0;
        let m = read_u32_at(b, 20);
        let d = read_u32_at(b, 24);
        let k = read_u32_at(b, 28);
        let n = read_u64_at(b, 32);
        let ghost bs = b@;
        let ghost st = start as int;

        let n_padding = padding(4, start % 4 + HEADER_LEN as u64);
        assert((start % 4 + 48) % 4 == (start + 48) % 4);
        let mut pos: usize = HEADER_LEN + n_padding as usize;
        assert(pos == chunk_projection_at(st));
        if pos > len {
            return Err(ChunkError::UnexpectedEnd);
        }

        proof {
            if m > 0 {
                lemma_codebooks_bound(m as int, k as int, d as int);
            }
            assert((d as int) * (d as int) <= u64::MAX) by (nonlinear_arith)
                requires
                    d <= u32::MAX,
            ;
        }

        let projection = if has_projection {
            let count = (d as u64) * (d as u64);
            match read_u32s(b, pos, count) {
                None => {
                    return Err(ChunkError::UnexpectedEnd);
                },
                Some(v) => {
                    pos = pos + 4 * (count as usize);
                    Some(v)
                },
            }
        } else {
            None
        };
        assert(pos == chunk_subquantizers_at(bs, st));

        let sub_count: u64 = if m == 0 {
            0
        } else {
            (m as u64) * ((k as u64) * ((d / m) as u64))
        };
        let subquantizers = match read_u32s(b, pos, sub_count) {
            None => {
                return Err(ChunkError::UnexpectedEnd);
            },
            Some(v) => v,
        };
        pos = pos + 4 * (sub_count as usize);
        assert(pos == chunk_norms_at(bs, st));

        let norms = if has_norms {
            match read_u32s(b, pos, n) {
                None => {
                    return Err(ChunkError::UnexpectedEnd);
                },
                Some(v) => {
                    pos = pos + 4 * (n as usize);
                    Some(v)
                },
            }
        } else {
            None
        };
        assert(pos == chunk_codes_at(bs, st));

        let code_count = match n.checked_mul(m as u64) {
            None => {
                return Err(ChunkError::UnexpectedEnd);
            },
            Some(c) => c,
        };
        let quantized = match read_bytes(b, pos, code_count) {
            None => {
                return Err(ChunkError::UnexpectedEnd);
            },
            Some(v) => v,
        };

        if m == 0 || d % m != 0 {
            return Err(ChunkError::Shape);
        }
        proof {
            lemma_codebooks_len(m as int, k as int, d as int);
            assert(n <= n * m) by (nonlinear_arith)
                requires
                    m >= 1,
            ;
            vstd::arithmetic::div_mod::lemma_fundamental_div_mod_converse(
                (n * m) as int,
                m as int,
                n as int,
                0,
            );
        }
        let ghost projection_view = opt_view(projection);
        let ghost norms_view = opt_view(norms);
        let ghost codes = quantized@;
        let quantizer = match Quantizer::new(
            projection,
            subquantizers,
            m as usize,
            d as usize,
            k as usize,
        ) {
            Ok(qz) => qz,
            // The sizes above were read to fit: this does not happen.
            Err(e) => {
                return Err(e);
            },
        };
        let q = match QuantizedArray::new(quantizer, quantized, norms) {
            Ok(q) => q,
            Err(e) => {
                assert(!chunk_shape_ok(bs, st)) by {
                    if chunk_shape_ok(bs, st) {
                        assert forall|i: int| 0 <= i < codes.len() implies (#[trigger] codes[i]
                            as int) < quantizer.spec_n_centroids() by {
                            assert(chunk_codes(bs, st)[i] == codes[i]);
                        }
                    }
                }
                return Err(e);
            },
        };
        assert(q.spec_quantizer().projection_view() =~= u32s_at(
            bs,
            chunk_projection_at(st),
            chunk_projection_count(bs),
        ));
        assert(q.norms_view() =~= u32s_at(bs, chunk_norms_at(bs, st), chunk_norms_count(bs)));
        Ok(q)
    }

    /// Encodes this matrix as a chunk that starts at stream offset `start`.
    ///
    /// The float data is preceded by zero padding so that it starts at a
    /// multiple of four bytes in the stream.
    pub fn write_chunk(&self, start: u64) -> (r: Vec<u8>)
        requires
            self.wf(),
        ensures
            r@ == self.chunk_bytes(start as int),
    {
        let n_padding = padding(4, start % 4 + HEADER_LEN as u64);
        assert((start % 4 + 48) % 4 == (start + 48) % 4);
        let qz = self.quantizer();
        let (rows, _) = self.shape();
        proof {
            lemma_absent_parts_empty(*self);
        }
        let proj_len: usize = match qz.projection() {
            Some(p) => p.len(),
            None => 0,
        };
        let norms_len: usize = match self.norms() {
            Some(v) => v.len(),
            None => 0,
        };
        let chunk_size: usize = (HEADER_LEN - 12) + n_padding as usize + 4 * proj_len + 4
            * qz.subquantizers().len() + 4 * norms_len + self.quantized().len();

        let mut out: Vec<u8> = Vec::new();
        push_u32(&mut out, QUANTIZED_ARRAY_CHUNK);
        push_u64(&mut out, chunk_size as u64);
        push_u32(&mut out, if qz.projection().is_some() { 1 } else { 0 });
        push_u32(&mut out, if self.norms().is_some() { 1 } else { 0 });
        push_u32(&mut out, qz.quantized_len() as u32);
        push_u32(&mut out, qz.reconstructed_len() as u32);
        push_u32(&mut out, qz.n_quantizer_centroids() as u32);
        push_u64(&mut out, rows as u64);
        push_u32(&mut out, U8_TYPE);
        push_u32(&mut out, F32_TYPE);
        assert(out@ =~= self.header_bytes(start as int));

        let ghost before = out@;
        let mut i: u64 = 0;
        while i < n_padding
            invariant
                i <= n_padding,
                out@ == before + Seq::new(i as nat, |j: int| 0u8),
            decreases n_padding - i,
        {
            out.push(0u8);
            assert(Seq::new((i + 1) as nat, |j: int| 0u8) =~= Seq::new(i as nat, |j: int| 0u8).push(
                0u8,
            ));
            i = i + 1;
        }

        match qz.projection() {
            Some(p) => push_u32s(&mut out, p),
            None => {
                assert(le_u32s_bytes(Seq::<u32>::empty()) =~= Seq::<u8>::empty());
                assert(out@ =~= out@ + le_u32s_bytes(Seq::<u32>::empty()));
            },
        }
        push_u32s(&mut out, qz.subquantizers());
        match self.norms() {
            Some(v) => push_u32s(&mut out, v),
            None => {
                assert(le_u32s_bytes(Seq::<u32>::empty()) =~= Seq::<u8>::empty());
                assert(out@ =~= out@ + le_u32s_bytes(Seq::<u32>::empty()));
            },
        }
        push_bytes(&mut out, self.quantized());
        out
    }
}

proof fn lemma_prefix_u32(b: Seq<u8>, h: Seq<u8>, i: int)
    requires
        0 <= i,
        i + 4 <= h.len() <= b.len(),
        b.subrange(0, h.len() as int) == h,
    ensures
        u32_at(b, i) == u32_at(h, i),
{
    assert(b.subrange(0, h.len() as int).subrange(i, i + 4) =~= b.subrange(i, i + 4));
}

proof fn lemma_prefix_u64(b: Seq<u8>, h: Seq<u8>, i: int)
    requires
        0 <= i,
        i + 8 <= h.len() <= b.len(),
        b.subrange(0, h.len() as int) == h,
    ensures
        u64_at(b, i) == u64_at(h, i),
{
    assert(b.subrange(0, h.len() as int).subrange(i, i + 8) =~= b.subrange(i, i + 8));
}

/// What each field of an encoded header holds.
proof fn lemma_header_fields(q: QuantizedArray, start: int)
    requires
        q.wf(),
        0 <= start,
    ensures
        ({
            let h = q.header_bytes(start);
            &&& h.len() == 48
            &&& u32_at(h, 0) == QUANTIZED_ARRAY_CHUNK
            &&& u64_at(h, 4) == q.payload_len(start)
            &&& u32_at(h, 12) == flag(q.spec_quantizer().spec_has_projection())
            &&& u32_at(h, 16) == flag(q.spec_has_norms())
            &&& u32_at(h, 20) == q.spec_quantizer().spec_quantized_len()
            &&& u32_at(h, 24) == q.spec_quantizer().spec_reconstructed_len()
            &&& u32_at(h, 28) == q.spec_quantizer().spec_n_centroids()
            &&& u64_at(h, 32) == q.spec_rows()
            &&& u32_at(h, 40) == U8_TYPE
            &&& u32_at(h, 44) == F32_TYPE
        }),
{
    let h = q.header_bytes(start);
    let qz = q.spec_quantizer();
    assert(h.subrange(0, 4) =~= le_u32_bytes(QUANTIZED_ARRAY_CHUNK));
    lemma_le_u32_round_trip(QUANTIZED_ARRAY_CHUNK);
    assert(q.payload_len(start) <= u64::MAX);
    assert(h.subrange(4, 12) =~= le_u64_bytes(q.payload_len(start) as u64));
    lemma_le_u64_round_trip(q.payload_len(start) as u64);
    assert(h.subrange(12, 16) =~= le_u32_bytes(flag(qz.spec_has_projection())));
    lemma_le_u32_round_trip(flag(qz.spec_has_projection()));
    assert(h.subrange(16, 20) =~= le_u32_bytes(flag(q.spec_has_norms())));
    lemma_le_u32_round_trip(flag(q.spec_has_norms()));
    assert(h.subrange(20, 24) =~= le_u32_bytes(qz.spec_quantized_len() as u32));
    lemma_le_u32_round_trip(qz.spec_quantized_len() as u32);
    assert(h.subrange(24, 28) =~= le_u32_bytes(qz.spec_reconstructed_len() as u32));
    lemma_le_u32_round_trip(qz.spec_reconstructed_len() as u32);
    assert(h.subrange(28, 32) =~= le_u32_bytes(qz.spec_n_centroids() as u32));
    lemma_le_u32_round_trip(qz.spec_n_centroids() as u32);
    assert(h.subrange(32, 40) =~= le_u64_bytes(q.spec_rows() as u64));
    lemma_le_u64_round_trip(q.spec_rows() as u64);
    assert(h.subrange(40, 44) =~= le_u32_bytes(U8_TYPE));
    lemma_le_u32_round_trip(U8_TYPE);
    assert(h.subrange(44, 48) =~= le_u32_bytes(F32_TYPE));
    lemma_le_u32_round_trip(F32_TYPE);
}

/// What the header and sections of an encoded chunk hold.
#[verifier::rlimit(50)]
proof fn lemma_chunk_layout(q: QuantizedArray, start: int)
    requires
        q.wf(),
        0 <= start,
    ensures
        ({
            let b = q.chunk_bytes(start);
            &&& b.len() >= 48
            &&& u32_at(b, 0) == QUANTIZED_ARRAY_CHUNK
            &&& u64_at(b, 4) == q.payload_len(start)
            &&& chunk_has_projection(b) == q.spec_quantizer().spec_has_projection()
            &&& chunk_has_norms(b) == q.spec_has_norms()
            &&& chunk_quantized_len(b) == q.spec_quantizer().spec_quantized_len()
            &&& chunk_reconstructed_len(b) == q.spec_quantizer().spec_reconstructed_len()
            &&& chunk_n_centroids(b) == q.spec_quantizer().spec_n_centroids()
            &&& chunk_rows(b) == q.spec_rows()
            &&& u32_at(b, 40) == U8_TYPE
            &&& u32_at(b, 44) == F32_TYPE
            &&& chunk_projection_count(b) == q.spec_quantizer().projection_view().len()
            &&& chunk_subquantizers_count(b) == q.spec_quantizer().subquantizers_view().len()
            &&& chunk_norms_count(b) == q.norms_view().len()
            &&& chunk_end(b, start) == b.len()
            &&& b.subrange(chunk_projection_at(start), chunk_subquantizers_at(b, start))
                == le_u32s_bytes(q.spec_quantizer().projection_view())
            &&& b.subrange(chunk_subquantizers_at(b, start), chunk_norms_at(b, start))
                == le_u32s_bytes(q.spec_quantizer().subquantizers_view())
            &&& b.subrange(chunk_norms_at(b, start), chunk_codes_at(b, start)) == le_u32s_bytes(
                q.norms_view(),
            )
            &&& chunk_codes(b, start) == q.codes()
        }),
{
    let b = q.chunk_bytes(start);
    let h = q.header_bytes(start);
    lemma_absent_parts_empty(q);
    let pad = QuantizedArray::chunk_padding(start);
    let z = Seq::new(pad as nat, |i: int| 0u8);
    let pv = le_u32s_bytes(q.spec_quantizer().projection_view());
    let sv = le_u32s_bytes(q.spec_quantizer().subquantizers_view());
    let nv = le_u32s_bytes(q.norms_view());
    let cv = q.codes();
    let qz = q.spec_quantizer();
    lemma_header_fields(q, start);
    assert(b.subrange(0, 48) =~= h);
    lemma_prefix_u32(b, h, 0);
    lemma_prefix_u64(b, h, 4);
    lemma_prefix_u32(b, h, 12);
    lemma_prefix_u32(b, h, 16);
    lemma_prefix_u32(b, h, 20);
    lemma_prefix_u32(b, h, 24);
    lemma_prefix_u32(b, h, 28);
    lemma_prefix_u64(b, h, 32);
    lemma_prefix_u32(b, h, 40);
    lemma_prefix_u32(b, h, 44);

    lemma_codebooks_len(
        qz.spec_quantized_len() as int,
        qz.spec_n_centroids() as int,
        qz.spec_reconstructed_len() as int,
    );
    assert(chunk_subquantizers_count(b) == qz.subquantizers_view().len());
    assert(chunk_projection_count(b) == qz.projection_view().len());
    assert(chunk_norms_count(b) == q.norms_view().len());
    assert(pv.len() == 4 * qz.projection_view().len());
    assert(sv.len() == 4 * qz.subquantizers_view().len());
    assert(nv.len() == 4 * q.norms_view().len());
    assert(cv.len() == q.spec_rows() * qz.spec_quantized_len());
    assert(chunk_rows(b) * chunk_quantized_len(b) == cv.len());

    let a0 = 48 + pad;
    let a1 = a0 + pv.len();
    let a2 = a1 + sv.len();
    let a3 = a2 + nv.len();
    assert(b.len() == a3 + cv.len());
    assert(b.subrange(a0, a1) =~= pv);
    assert(b.subrange(a1, a2) =~= sv);
    assert(b.subrange(a2, a3) =~= nv);
    assert(b.subrange(a3, a3 + cv.len()) =~= cv);
}

/// Decoding the chunk that a matrix is encoded as succeeds, and reads the
/// whole chunk.
pub proof fn lemma_encoded_chunk_decodes(q: QuantizedArray, start: u64)
    requires
        q.wf(),
    ensures
        chunk_error(q.chunk_bytes(start as int), start as int) is None,
        chunk_end(q.chunk_bytes(start as int), start as int) == q.chunk_bytes(start as int).len(),
{
    let b = q.chunk_bytes(start as int);
    lemma_chunk_layout(q, start as int);
    assert forall|i: int|
        0 <= i < chunk_rows(b) * chunk_quantized_len(b) implies (#[trigger] chunk_codes(
        b,
        start as int,
    )[i] as int) < chunk_n_centroids(b) by {
        assert(chunk_codes(b, start as int)[i] == q.codes()[i]);
    }
}

/// The payload length in an encoded chunk's header is the number of bytes
/// that follow the 12 bytes of type tag and length.
pub proof fn lemma_declared_size(q: QuantizedArray, start: u64)
    requires
        q.wf(),
    ensures
        q.chunk_bytes(start as int).len() == 12 + u64_at(q.chunk_bytes(start as int), 4),
{
    lemma_chunk_layout(q, start as int);
}

/// Encoding a matrix and decoding the chunk gives back the same quantizer
/// (projection and codebooks), codes and norms.
pub proof fn lemma_round_trip(q: QuantizedArray, start: u64, r: QuantizedArray)
    requires
        q.wf(),
        r.decoded_from(q.chunk_bytes(start as int), start as int),
    ensures
        r.same_as(&q),
{
    let b = q.chunk_bytes(start as int);
    let st = start as int;
    lemma_chunk_layout(q, st);
    lemma_le_u32s_round_trip(q.spec_quantizer().projection_view(), b, chunk_projection_at(st));
    lemma_le_u32s_round_trip(q.spec_quantizer().subquantizers_view(), b, chunk_subquantizers_at(b, st));
    lemma_le_u32s_round_trip(q.norms_view(), b, chunk_norms_at(b, st));
}

/// The shape of a decoded matrix is the row count and vector length that
/// its chunk's header declares.
pub proof fn lemma_decoded_shape(q: QuantizedArray, b: Seq<u8>, start: int)
    requires
        q.decoded_from(b, start),
    ensures
        q.spec_rows() == chunk_rows(b),
        q.spec_quantizer().spec_reconstructed_len() == chunk_reconstructed_len(b),
{
}

/// Two matrices decoded from the same chunk reconstruct every row alike.
pub proof fn lemma_decoding_deterministic(
    q1: QuantizedArray,
    q2: QuantizedArray,
    b: Seq<u8>,
    start: int,
    idx: int,
)
    requires
        q1.decoded_from(b, start),
        q2.decoded_from(b, start),
    ensures
        q1.reconstruct(idx) == q2.reconstruct(idx),
        q1.scale(idx) == q2.scale(idx),
{
    assert(q1.reconstruct(idx) =~= q2.reconstruct(idx));
}

} // verus!
