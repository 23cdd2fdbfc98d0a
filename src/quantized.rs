//! Product-quantized embedding matrices: the model and row reconstruction.

use vstd::prelude::*;

use crate::chunk::ChunkError;

verus! {

/// Length of the fixed part of the chunk header, up to the padding.
pub const HEADER_LEN: usize = 48;

/// A product quantizer: an optional projection and `quantized_len` codebooks.
///
/// The codebooks are stored one after another; codebook `m` is a row-major
/// matrix of `n_centroids` rows and `reconstructed_len / quantized_len`
/// columns. Each float is held as its IEEE-754 bit pattern.
#[derive(Clone, Debug, PartialEq)]
pub struct Quantizer {
    projection: Option<Vec<u32>>,
    subquantizers: Vec<u32>,
    quantized_len: usize,
    reconstructed_len: usize,
    n_centroids: usize,
}

/// A matrix of `rows` vectors, each stored as `quantized_len` codes.
#[derive(Clone, Debug, PartialEq)]
pub struct QuantizedArray {
    quantizer: Quantizer,
    quantized: Vec<u8>,
    norms: Option<Vec<u32>>,
    rows: usize,
}

/// A reconstructed vector: its components, to be multiplied by `scale`
/// where there is one. Floats are held as their bit patterns.
pub struct Reconstruction {
    pub components: Vec<u32>,
    pub scale: Option<u32>,
}

/// The values of an optional float vector, empty where there is none.
pub open spec fn opt_view(v: Option<Vec<u32>>) -> Seq<u32> {
    match v {
        Some(v) => v@,
        None => Seq::empty(),
    }
}

impl Quantizer {
    /// Length of each subvector.
    pub open spec fn sub_len(&self) -> int {
        (self.spec_reconstructed_len() / self.spec_quantized_len()) as int
    }

    /// At least one subquantizer, every dimension within `u32`, subvectors
    /// of equal length, `k` centroids of `d / m` floats per codebook, and a
    /// `d` by `d` projection where there is one.
    pub open spec fn wf(&self) -> bool {
        let m = self.spec_quantized_len();
        let d = self.spec_reconstructed_len();
        let k = self.spec_n_centroids();
        &&& 1 <= m <= u32::MAX
        &&& d <= u32::MAX
        &&& k <= u32::MAX
        &&& d % m == 0
        &&& self.subquantizers_view().len() == k * d
        &&& self.spec_has_projection() ==> self.projection_view().len() == d * d
    }

    /// The projection matrix, row-major; empty where there is none.
    pub closed spec fn projection_view(&self) -> Seq<u32> {
        opt_view(self.projection)
    }

    /// The number of subquantizers `m`.
    pub closed spec fn spec_quantized_len(&self) -> usize {
        self.quantized_len
    }

    /// The length `d` of a reconstructed vector.
    pub closed spec fn spec_reconstructed_len(&self) -> usize {
        self.reconstructed_len
    }

    /// The number `k` of centroids per codebook.
    pub closed spec fn spec_n_centroids(&self) -> usize {
        self.n_centroids
    }

    /// Whether vectors are rotated by a projection before quantization.
    pub closed spec fn spec_has_projection(&self) -> bool {
        self.projection is Some
    }

    /// The codebooks, one after another, each row-major.
    pub closed spec fn subquantizers_view(&self) -> Seq<u32> {
        self.subquantizers@
    }

    /// Equal as values: the same dimensions and the same floats.
    pub open spec fn same_as(&self, o: &Quantizer) -> bool {
        &&& self.spec_has_projection() == o.spec_has_projection()
        &&& self.projection_view() == o.projection_view()
        &&& self.subquantizers_view() == o.subquantizers_view()
        &&& self.spec_quantized_len() == o.spec_quantized_len()
        &&& self.spec_reconstructed_len() == o.spec_reconstructed_len()
        &&& self.spec_n_centroids() == o.spec_n_centroids()
    }
}

impl QuantizedArray {
    /// The quantizer.
    pub closed spec fn spec_quantizer(&self) -> Quantizer {
        self.quantizer
    }

    /// The number of rows `n`.
    pub closed spec fn spec_rows(&self) -> usize {
        self.rows
    }

    /// The codes, `m` per row, one row after another.
    pub closed spec fn codes(&self) -> Seq<u8> {
        self.quantized@
    }

    /// Whether the rows were normalized and carry their norms.
    pub closed spec fn spec_has_norms(&self) -> bool {
        self.norms is Some
    }

    /// The rows' norms; empty where there are none.
    pub closed spec fn norms_view(&self) -> Seq<u32> {
        opt_view(self.norms)
    }

    /// Bytes of the projection, codebooks, norms and codes.
    pub open spec fn data_len(&self) -> int {
        let qz = self.spec_quantizer();
        (4 * qz.projection_view().len() + 4 * qz.subquantizers_view().len() + 4
            * self.norms_view().len() + self.codes().len()) as int
    }

    /// A well-formed quantizer, one row of codes per row, one norm per row
    /// where there are norms, codes that index a centroid, and a chunk whose
    /// length fits in memory.
    pub open spec fn wf(&self) -> bool {
        let qz = self.spec_quantizer();
        &&& qz.wf()
        &&& self.codes().len() == self.spec_rows() * qz.spec_quantized_len()
        &&& self.spec_has_norms() ==> self.norms_view().len() == self.spec_rows()
        &&& forall|i: int|
            0 <= i < self.codes().len() ==> (#[trigger] self.codes()[i] as int)
                < qz.spec_n_centroids()
        &&& self.data_len() + HEADER_LEN + 3 <= usize::MAX
    }

    /// Equal as values: the same quantizer, codes and norms.
    pub open spec fn same_as(&self, o: &QuantizedArray) -> bool {
        &&& self.spec_quantizer().same_as(&o.spec_quantizer())
        &&& self.codes() == o.codes()
        &&& self.spec_has_norms() == o.spec_has_norms()
        &&& self.norms_view() == o.norms_view()
        &&& self.spec_rows() == o.spec_rows()
    }
}

/// The length of an optional float vector, where there is one.
pub open spec fn opt_len(v: Option<Vec<u32>>) -> Option<int> {
    match v {
        Some(v) => Some(v@.len() as int),
        None => None,
    }
}

/// The sizes that a quantizer can have: at least one subquantizer, every
/// dimension within `u32`, subvectors of equal length, `k` centroids of
/// `d / m` floats per codebook, and a `d` by `d` projection.
pub open spec fn quantizer_parts_ok(
    projection_len: Option<int>,
    subquantizers_len: int,
    m: int,
    d: int,
    k: int,
) -> bool {
    &&& 1 <= m <= u32::MAX
    &&& 0 <= d <= u32::MAX
    &&& 0 <= k <= u32::MAX
    &&& d % m == 0
    &&& subquantizers_len == k * d
    &&& match projection_len {
        Some(l) => l == d * d,
        None => true,
    }
}

/// The parts that a matrix over quantizer `qz` can have: whole rows of
/// codes, one norm per row, codes that index a centroid, and a chunk whose
/// length fits in memory.
pub open spec fn array_parts_ok(qz: Quantizer, codes: Seq<u8>, norms_len: Option<int>) -> bool {
    let m = qz.spec_quantized_len() as int;
    let rows = (codes.len() as int) / m;
    &&& (codes.len() as int) % m == 0
    &&& match norms_len {
        Some(l) => l == rows,
        None => true,
    }
    &&& forall|i: int| 0 <= i < codes.len() ==> (#[trigger] codes[i] as int) < qz.spec_n_centroids()
    &&& 4 * qz.projection_view().len() + 4 * qz.subquantizers_view().len() + 4 * match norms_len {
        Some(l) => l,
        None => 0,
    } + codes.len() + HEADER_LEN + 3 <= usize::MAX
}

impl QuantizedArray {
    /// Row `idx` reconstructed: for each subquantizer in order, the centroid
    /// of its codebook that the row's code for it selects.
    pub open spec fn reconstruct(&self, idx: int) -> Seq<u32> {
        let qz = self.spec_quantizer();
        let m = qz.spec_quantized_len() as int;
        let k = qz.spec_n_centroids() as int;
        let s = qz.sub_len();
        Seq::new(
            qz.spec_reconstructed_len() as nat,
            |j: int| qz.subquantizers_view()[((j / s) * k + self.codes()[idx * m + j / s]) * s + j % s],
        )
    }

    /// The norm that row `idx` is scaled by, where the matrix has norms.
    pub open spec fn scale(&self, idx: int) -> Option<u32> {
        if self.spec_has_norms() {
            Some(self.norms_view()[idx])
        } else {
            None
        }
    }
}

proof fn lemma_row_code_index(rows: int, m: int, idx: int, sq: int)
    requires
        0 <= idx < rows,
        0 <= sq < m,
    ensures
        0 <= idx * m + sq < rows * m,
{
    assert(0 <= idx * m + sq < rows * m) by (nonlinear_arith)
        requires
            0 <= idx < rows,
            0 <= sq < m,
    ;
}

proof fn lemma_centroid_index(m: int, k: int, s: int, sq: int, c: int, t: int)
    requires
        0 <= sq < m,
        0 <= c < k,
        0 <= t < s,
    ensures
        0 <= sq * k <= sq * k + c <= (sq * k + c) * s <= (sq * k + c) * s + t < k * (m * s),
        (sq * s + t) / s == sq,
        (sq * s + t) % s == t,
{
    assert(0 <= sq * k + c < m * k) by (nonlinear_arith)
        requires
            0 <= sq < m,
            0 <= c < k,
    ;
    assert(0 <= (sq * k + c) * s + t < k * (m * s)) by (nonlinear_arith)
        requires
            0 <= sq * k + c < m * k,
            0 <= t < s,
    ;
    assert(0 <= sq * k) by (nonlinear_arith)
        requires
            0 <= sq,
            0 <= k,
    ;
    assert(sq * k + c <= (sq * k + c) * s) by (nonlinear_arith)
        requires
            0 <= sq * k + c,
            1 <= s,
    ;
    vstd::arithmetic::div_mod::lemma_fundamental_div_mod_converse(sq * s + t, s, sq, t);
}

impl Quantizer {
    /// A quantizer from its parts; floats are given as their bit patterns.
    ///
    /// `subquantizers` holds the `quantized_len` codebooks one after another,
    /// each `n_centroids` rows of `reconstructed_len / quantized_len` floats.
    /// Fails with a shape error where the sizes disagree.
    pub fn new(
        projection: Option<Vec<u32>>,
        subquantizers: Vec<u32>,
        quantized_len: usize,
        reconstructed_len: usize,
        n_centroids: usize,
    ) -> (r: Result<Quantizer, ChunkError>)
        ensures
            r is Ok <==> quantizer_parts_ok(
                opt_len(projection),
                subquantizers@.len() as int,
                quantized_len as int,
                reconstructed_len as int,
                n_centroids as int,
            ),
            r is Err ==> r == Err::<Quantizer, ChunkError>(ChunkError::Shape),
            r matches Ok(q) ==> {
                &&& q.wf()
                &&& q.spec_has_projection() == projection is Some
                &&& q.projection_view() == opt_view(projection)
                &&& q.subquantizers_view() == subquantizers@
                &&& q.spec_quantized_len() == quantized_len
                &&& q.spec_reconstructed_len() == reconstructed_len
                &&& q.spec_n_centroids() == n_centroids
            },
    {
        let max = u32::MAX as usize;
        if quantized_len == 0 || quantized_len > max || reconstructed_len > max || n_centroids
            > max {
            return Err(ChunkError::Shape);
        }
        if reconstructed_len % quantized_len != 0 {
            return Err(ChunkError::Shape);
        }
        proof {
            assert((n_centroids as int) * (reconstructed_len as int) <= u64::MAX) by (nonlinear_arith)
                requires
                    n_centroids <= u32::MAX,
                    reconstructed_len <= u32::MAX,
            ;
            assert((reconstructed_len as int) * (reconstructed_len as int) <= u64::MAX)
                by (nonlinear_arith)
                requires
                    reconstructed_len <= u32::MAX,
            ;
        }
        if subquantizers.len() as u64 != (n_centroids as u64) * (reconstructed_len as u64) {
            return Err(ChunkError::Shape);
        }
        match &projection {
            Some(p) => {
                if p.len() as u64 != (reconstructed_len as u64) * (reconstructed_len as u64) {
                    return Err(ChunkError::Shape);
                }
            },
            None => {},
        }
        Ok(Quantizer { projection, subquantizers, quantized_len, reconstructed_len, n_centroids })
    }

    /// The projection matrix, row-major, where there is one.
    pub fn projection(&self) -> (r: Option<&Vec<u32>>)
        ensures
            r is Some == self.spec_has_projection(),
            r matches Some(p) ==> p@ == self.projection_view(),
    {
        self.projection.as_ref()
    }

    /// The codebooks, one after another, each row-major.
    pub fn subquantizers(&self) -> (r: &Vec<u32>)
        ensures
            r@ == self.subquantizers_view(),
    {
        &self.subquantizers
    }

    /// The number of subquantizers.
    pub fn quantized_len(&self) -> (r: usize)
        ensures
            r == self.spec_quantized_len(),
    {
        self.quantized_len
    }

    /// The length of a reconstructed vector.
    pub fn reconstructed_len(&self) -> (r: usize)
        ensures
            r == self.spec_reconstructed_len(),
    {
        self.reconstructed_len
    }

    /// The number of centroids of each codebook.
    pub fn n_quantizer_centroids(&self) -> (r: usize)
        ensures
            r == self.spec_n_centroids(),
    {
        self.n_centroids
    }
}

impl QuantizedArray {
    /// A matrix from a quantizer, the codes of its rows one after another,
    /// and the rows' norms where the rows were normalized before
    /// quantization. Fails with a shape error where the parts disagree.
    pub fn new(quantizer: Quantizer, quantized: Vec<u8>, norms: Option<Vec<u32>>) -> (r: Result<
        QuantizedArray,
        ChunkError,
    >)
        requires
            quantizer.wf(),
        ensures
            r is Ok <==> array_parts_ok(quantizer, quantized@, opt_len(norms)),
            r is Err ==> r == Err::<QuantizedArray, ChunkError>(ChunkError::Shape),
            r matches Ok(a) ==> {
                &&& a.wf()
                &&& a.spec_quantizer() == quantizer
                &&& a.codes() == quantized@
                &&& a.spec_has_norms() == norms is Some
                &&& a.norms_view() == opt_view(norms)
                &&& a.spec_rows() == (quantized@.len() as int) / (quantizer.spec_quantized_len() as int)
            },
    {
        let m = quantizer.quantized_len;
        if quantized.len() % m != 0 {
            return Err(ChunkError::Shape);
        }
        let rows = quantized.len() / m;
        let norms_len: usize = match &norms {
            Some(v) => {
                if v.len() != rows {
                    return Err(ChunkError::Shape);
                }
                v.len()
            },
            None => 0,
        };
        let mut i: usize = 0;
        while i < quantized.len()
            invariant
                i <= quantized@.len(),
                forall|j: int| 0 <= j < i ==> (quantized@[j] as int) < quantizer.n_centroids,
            decreases quantized.len() - i,
        {
            if quantized[i] as usize >= quantizer.n_centroids {
                assert(!array_parts_ok(quantizer, quantized@, opt_len(norms)));
                return Err(ChunkError::Shape);
            }
            i = i + 1;
        }
        let proj_len: usize = match &quantizer.projection {
            Some(p) => p.len(),
            None => 0,
        };
        let size: u128 = 4 * (proj_len as u128) + 4 * (quantizer.subquantizers.len() as u128) + 4
            * (norms_len as u128) + quantized.len() as u128 + HEADER_LEN as u128 + 3;
        if size > usize::MAX as u128 {
            return Err(ChunkError::Shape);
        }
        proof {
            let len = quantized@.len() as int;
            vstd::arithmetic::div_mod::lemma_fundamental_div_mod(len, m as int);
            assert(len == rows * m) by (nonlinear_arith)
                requires
                    len == (m as int) * (len / (m as int)) + len % (m as int),
                    len % (m as int) == 0,
                    rows == len / (m as int),
            ;
        }
        Ok(QuantizedArray { quantizer, quantized, norms, rows })
    }

    /// The quantizer.
    pub fn quantizer(&self) -> (r: &Quantizer)
        ensures
            *r == self.spec_quantizer(),
    {
        &self.quantizer
    }

    /// The codes of all rows, one row after another.
    pub fn quantized(&self) -> (r: &Vec<u8>)
        ensures
            r@ == self.codes(),
    {
        &self.quantized
    }

    /// The rows' norms, where the rows were normalized.
    pub fn norms(&self) -> (r: Option<&Vec<u32>>)
        ensures
            r is Some == self.spec_has_norms(),
            r matches Some(v) ==> v@ == self.norms_view(),
    {
        self.norms.as_ref()
    }
}

impl QuantizedArray {
    /// Reconstructs row `idx`: the concatenated centroids that its codes
    /// select, with the row's norm as the scale where the matrix has norms.
    pub fn embedding(&self, idx: usize) -> (r: Reconstruction)
        requires
            self.wf(),
            idx < self.spec_rows(),
        ensures
            r.components@ == self.reconstruct(idx as int),
            r.scale == self.scale(idx as int),
    {
        let m = self.quantizer.quantized_len;
        let k = self.quantizer.n_centroids;
        let d = self.quantizer.reconstructed_len;
        let s = d / m;
        proof {
            vstd::arithmetic::div_mod::lemma_fundamental_div_mod(d as int, m as int);
            assert(m * s == s * m) by (nonlinear_arith);
        }
        let ghost spec_r = self.reconstruct(idx as int);
        let mut out: Vec<u32> = Vec::new();
        let mut sq: usize = 0;
        while sq < m
            invariant
                self.wf(),
                idx < self.rows,
                m == self.quantizer.quantized_len,
                k == self.quantizer.n_centroids,
                d == self.quantizer.reconstructed_len,
                s == self.quantizer.sub_len(),
                d == m * s,
                sq <= m,
                spec_r == self.reconstruct(idx as int),
                out@.len() == sq * s,
                forall|j: int| 0 <= j < out@.len() ==> out@[j] == spec_r[j],
            decreases m - sq,
        {
            proof {
                lemma_row_code_index(self.rows as int, m as int, idx as int, sq as int);
            }
            let c = self.quantized[idx * m + sq] as usize;
            let mut t: usize = 0;
            while t < s
                invariant
                    self.wf(),
                    idx < self.rows,
                    m == self.quantizer.quantized_len,
                    k == self.quantizer.n_centroids,
                    d == self.quantizer.reconstructed_len,
                    s == self.quantizer.sub_len(),
                    d == m * s,
                    sq < m,
                    0 <= idx * m + sq < self.rows * m,
                    c == self.quantized@[idx * m + sq],
                    t <= s,
                    spec_r == self.reconstruct(idx as int),
                    out@.len() == sq * s + t,
                    forall|j: int| 0 <= j < out@.len() ==> out@[j] == spec_r[j],
                decreases s - t,
            {
                proof {
                    lemma_centroid_index(m as int, k as int, s as int, sq as int, c as int, t as int);
                    assert(sq * s + t < m * s) by (nonlinear_arith)
                        requires
                            sq < m,
                            t < s,
                    ;
                }
                assert(self.quantizer.subquantizers@.len() == k * (m * s));
                let v = self.quantizer.subquantizers[(sq * k + c) * s + t];
                assert(spec_r[sq * s + t] == v);
                out.push(v);
                t = t + 1;
            }
            assert((sq + 1) * s == sq * s + s) by (nonlinear_arith);
            sq = sq + 1;
        }
        assert(out@ =~= spec_r);
        let scale = match &self.norms {
            Some(v) => Some(v[idx]),
            None => None,
        };
        Reconstruction { components: out, scale }
    }

    /// The number of rows and the length of a reconstructed row.
    pub fn shape(&self) -> (r: (usize, usize))
        ensures
            r == (self.spec_rows(), self.spec_quantizer().spec_reconstructed_len()),
    {
        (self.rows, self.quantizer.reconstructed_len)
    }
}

/// Where a matrix has no norms, or its quantizer no projection, the
/// corresponding values are empty.
pub proof fn lemma_absent_parts_empty(q: QuantizedArray)
    ensures
        !q.spec_has_norms() ==> q.norms_view() == Seq::<u32>::empty(),
        !q.spec_quantizer().spec_has_projection() ==> q.spec_quantizer().projection_view()
            == Seq::<u32>::empty(),
{
}

} // verus!
