use byteorder::{ByteOrder, LittleEndian};
use finalfusion::chunk::ChunkError;
use finalfusion::quantized::{QuantizedArray, Quantizer};
use ndarray::{Array2, ArrayView2};
use rand::{FromEntropy, SeedableRng};
use rand_xorshift::XorShiftRng;
use reductive::pq::{QuantizeVector, ReconstructVector, TrainPQ, PQ};

const N_ROWS: usize = 100;
const N_COLS: usize = 100;

fn test_ndarray() -> Array2<f32> {
    Array2::from_shape_fn((N_ROWS, N_COLS), |(r, c)| {
        r as f32 * N_COLS as f32 + c as f32
    })
}

fn bits(view: ArrayView2<f32>) -> Vec<u32> {
    view.iter().map(|v| v.to_bits()).collect()
}

fn quantize_with(matrix: &Array2<f32>, normalize: bool, rng: &mut XorShiftRng) -> QuantizedArray {
    let (embeds, norms) = if normalize {
        let norms: Vec<f32> = matrix.outer_iter().map(|e| e.dot(&e).sqrt()).collect();
        let mut normalized = matrix.to_owned();
        for (mut embedding, &norm) in normalized.outer_iter_mut().zip(&norms) {
            embedding /= norm;
        }
        (normalized, Some(norms))
    } else {
        (matrix.to_owned(), None)
    };
    let pq: PQ<f32> = PQ::train_pq_using(10, 4, 5, 1, embeds.view(), rng);
    let codes: Array2<u8> = pq.quantize_batch(embeds.view());
    let subquantizers: Vec<u32> = pq
        .subquantizers()
        .iter()
        .flat_map(|sq| bits(sq.view()))
        .collect();
    let quantizer = Quantizer::new(
        pq.projection().map(bits),
        subquantizers,
        pq.quantized_len(),
        pq.reconstructed_len(),
        pq.n_quantizer_centroids(),
    )
    .unwrap();
    QuantizedArray::new(
        quantizer,
        codes.iter().cloned().collect(),
        norms.map(|n| n.iter().map(|v| v.to_bits()).collect()),
    )
    .unwrap()
}

fn test_quantized_array(norms: bool) -> QuantizedArray {
    quantize_with(&test_ndarray(), norms, &mut XorShiftRng::from_entropy())
}

fn read_chunk_size(bytes: &[u8]) -> u64 {
    // Skip the identifier, return the chunk length.
    LittleEndian::read_u64(&bytes[4..12])
}

#[test]
fn quantized_array_correct_chunk_size() {
    let check_arr = test_quantized_array(false);
    let bytes = check_arr.write_chunk(0);
    let chunk_size = read_chunk_size(&bytes);
    assert_eq!(bytes[12..].len(), chunk_size as usize);
}

#[test]
fn quantized_array_norms_correct_chunk_size() {
    let check_arr = test_quantized_array(true);
    let bytes = check_arr.write_chunk(0);
    let chunk_size = read_chunk_size(&bytes);
    assert_eq!(bytes[12..].len(), chunk_size as usize);
}

#[test]
fn quantized_array_read_write_roundtrip() {
    let check_arr = test_quantized_array(true);
    let bytes = check_arr.write_chunk(0);
    let arr = QuantizedArray::read_chunk(&bytes, 0).unwrap();
    assert_eq!(arr.quantizer(), check_arr.quantizer());
    assert_eq!(arr.quantized(), check_arr.quantized());
}

/// Two subquantizers of two centroids over vectors of length four.
fn small_quantizer(projection: Option<Vec<u32>>) -> Quantizer {
    Quantizer::new(projection, vec![1, 2, 3, 4, 5, 6, 7, 8], 2, 4, 2).unwrap()
}

fn small_array(norms: Option<Vec<u32>>) -> QuantizedArray {
    QuantizedArray::new(small_quantizer(None), vec![1, 0, 0, 1], norms).unwrap()
}

#[test]
fn small_array_header_bytes() {
    let bytes = small_array(None).write_chunk(0);
    assert_eq!(&bytes[0..4], &[4, 0, 0, 0]);
    // 36 header bytes after the length, no padding, 8 floats, 4 codes.
    assert_eq!(&bytes[4..12], &[72, 0, 0, 0, 0, 0, 0, 0]);
    assert_eq!(&bytes[12..16], &[0, 0, 0, 0]);
    assert_eq!(&bytes[16..20], &[0, 0, 0, 0]);
    assert_eq!(&bytes[20..24], &[2, 0, 0, 0]);
    assert_eq!(&bytes[24..28], &[4, 0, 0, 0]);
    assert_eq!(&bytes[28..32], &[2, 0, 0, 0]);
    assert_eq!(&bytes[32..40], &[2, 0, 0, 0, 0, 0, 0, 0]);
    assert_eq!(&bytes[40..44], &[1, 0, 0, 0]);
    assert_eq!(&bytes[44..48], &[10, 0, 0, 0]);
    assert_eq!(&bytes[48..52], &[1, 0, 0, 0]);
    assert_eq!(&bytes[76..80], &[8, 0, 0, 0]);
    assert_eq!(&bytes[80..84], &[1, 0, 0, 1]);
    assert_eq!(bytes.len(), 84);
}

#[test]
fn float_bits_are_little_endian() {
    let quantizer = Quantizer::new(None, vec![1.0f32.to_bits(), 0x0102_0304], 1, 1, 2).unwrap();
    let arr = QuantizedArray::new(quantizer, vec![1], None).unwrap();
    let bytes = arr.write_chunk(0);
    assert_eq!(&bytes[48..52], &[0x00, 0x00, 0x80, 0x3f]);
    assert_eq!(&bytes[52..56], &[0x04, 0x03, 0x02, 0x01]);
    let back = QuantizedArray::read_chunk(&bytes, 0).unwrap();
    assert_eq!(back.quantizer().subquantizers(), &vec![0x3f80_0000, 0x0102_0304]);
}

#[test]
fn padding_follows_stream_offset() {
    let arr = small_array(Some(vec![11, 12]));
    for start in 0..8u64 {
        let bytes = arr.write_chunk(start);
        let pad = ((4 - (start + 48) % 4) % 4) as usize;
        assert_eq!(bytes.len(), 48 + pad + 32 + 8 + 4);
        assert_eq!(bytes.len() - 12, read_chunk_size(&bytes) as usize);
        assert!(bytes[48..48 + pad].iter().all(|&b| b == 0));
        let back = QuantizedArray::read_chunk(&bytes, start).unwrap();
        assert_eq!(back, arr);
    }
}

#[test]
fn padding_values() {
    assert_eq!(finalfusion::chunk::padding(4, 0), 0);
    assert_eq!(finalfusion::chunk::padding(4, 1), 3);
    assert_eq!(finalfusion::chunk::padding(4, 6), 2);
    assert_eq!(finalfusion::chunk::padding(4, 7), 1);
    assert_eq!(finalfusion::chunk::padding(8, 13), 3);
}

#[test]
fn round_trip_with_projection() {
    let projection: Vec<u32> = (0..16).collect();
    let quantizer = small_quantizer(Some(projection.clone()));
    let arr = QuantizedArray::new(quantizer, vec![1, 1, 0, 0, 1, 0], Some(vec![7, 8, 9])).unwrap();
    let bytes = arr.write_chunk(3);
    assert_eq!(bytes.len() - 12, read_chunk_size(&bytes) as usize);
    let back = QuantizedArray::read_chunk(&bytes, 3).unwrap();
    assert_eq!(back.quantizer().projection(), Some(&projection));
    assert_eq!(back, arr);
}

#[test]
fn embedding_concatenates_centroids() {
    let arr = small_array(None);
    let r = arr.embedding(0);
    assert_eq!(r.components, vec![3, 4, 5, 6]);
    assert_eq!(r.scale, None);
    let r = arr.embedding(1);
    assert_eq!(r.components, vec![1, 2, 7, 8]);
}

#[test]
fn embedding_carries_norm() {
    let arr = small_array(Some(vec![9, 10]));
    let r = arr.embedding(1);
    assert_eq!(r.components, vec![1, 2, 7, 8]);
    assert_eq!(r.scale, Some(10));
}

#[test]
fn embedding_is_deterministic() {
    let arr = test_quantized_array(true);
    let bytes = arr.write_chunk(0);
    let a = QuantizedArray::read_chunk(&bytes, 0).unwrap();
    let b = QuantizedArray::read_chunk(&bytes, 0).unwrap();
    for i in 0..N_ROWS {
        let x = a.embedding(i);
        let y = b.embedding(i);
        assert_eq!(x.components, y.components);
        assert_eq!(x.scale, y.scale);
        assert_eq!(x.components, a.embedding(i).components);
    }
}

#[test]
fn shape_of_decoded_matrix() {
    let arr = test_quantized_array(false);
    let bytes = arr.write_chunk(0);
    let back = QuantizedArray::read_chunk(&bytes, 0).unwrap();
    assert_eq!(back.shape(), (N_ROWS, N_COLS));
    assert_eq!(small_array(None).shape(), (2, 4));
}

#[test]
fn normalized_rows_keep_their_norm() {
    let matrix = test_ndarray();
    let arr = quantize_with(&matrix, true, &mut XorShiftRng::seed_from_u64(42));
    for (i, row) in matrix.outer_iter().enumerate() {
        let r = arr.embedding(i);
        let scale = f32::from_bits(r.scale.unwrap());
        let v: Vec<f32> = r.components.iter().map(|&c| f32::from_bits(c) * scale).collect();
        let norm = v.iter().map(|x| x * x).sum::<f32>().sqrt();
        let orig = row.dot(&row).sqrt();
        assert!((norm - orig).abs() <= 0.05 * orig, "row {}: {} vs {}", i, norm, orig);
    }
}

#[test]
fn normalized_exact_row_keeps_exact_norm() {
    // A row that equals its centroid exactly has no quantization error.
    let unit = 0.5f32.to_bits();
    let quantizer = Quantizer::new(None, vec![unit, unit, unit, unit], 2, 4, 1).unwrap();
    let arr = QuantizedArray::new(quantizer, vec![0, 0], Some(vec![6.0f32.to_bits()])).unwrap();
    let r = arr.embedding(0);
    let scale = f32::from_bits(r.scale.unwrap());
    let norm = r
        .components
        .iter()
        .map(|&c| (f32::from_bits(c) * scale).powi(2))
        .sum::<f32>()
        .sqrt();
    assert_eq!(norm, 6.0);
}

#[test]
fn wrong_chunk_type_is_rejected() {
    let mut bytes = small_array(None).write_chunk(0);
    for tag in [0u32, 2, 5, 0xffff_ffff] {
        bytes[0..4].copy_from_slice(&tag.to_le_bytes());
        assert_eq!(
            QuantizedArray::read_chunk(&bytes, 0),
            Err(ChunkError::TypeMismatch { expected: 4, found: tag })
        );
        assert_eq!(
            QuantizedArray::read_chunk(&bytes[0..4], 0),
            Err(ChunkError::TypeMismatch { expected: 4, found: tag })
        );
    }
}

#[test]
fn wrong_element_types_are_rejected() {
    let bytes = small_array(None).write_chunk(0);
    let mut codes = bytes.clone();
    codes[40] = 2;
    assert_eq!(
        QuantizedArray::read_chunk(&codes, 0),
        Err(ChunkError::TypeMismatch { expected: 1, found: 2 })
    );
    let mut floats = bytes.clone();
    floats[44] = 11;
    assert_eq!(
        QuantizedArray::read_chunk(&floats, 0),
        Err(ChunkError::TypeMismatch { expected: 10, found: 11 })
    );
}

#[test]
fn truncated_chunk_is_rejected() {
    let bytes = small_array(Some(vec![1, 2])).write_chunk(0);
    for len in [0, 3, 4, 20, 43, 44, 47, 48, 60, bytes.len() - 1] {
        assert_eq!(
            QuantizedArray::read_chunk(&bytes[..len], 0),
            Err(ChunkError::UnexpectedEnd),
            "length {}",
            len
        );
    }
    assert!(QuantizedArray::read_chunk(&bytes, 0).is_ok());
}

#[test]
fn inconsistent_shapes_are_rejected() {
    let bytes = small_array(None).write_chunk(0);
    // Three subquantizers cannot split vectors of length four.
    let mut three = bytes.clone();
    three[20] = 3;
    three[80] = 0;
    three[81] = 0;
    three[82] = 0;
    three.extend_from_slice(&[0, 0]);
    assert_eq!(QuantizedArray::read_chunk(&three, 0), Err(ChunkError::Shape));
    // A code that indexes no centroid.
    let mut code = bytes.clone();
    code[83] = 2;
    assert_eq!(QuantizedArray::read_chunk(&code, 0), Err(ChunkError::Shape));
    // No subquantizers at all.
    let mut none = bytes[..48].to_vec();
    none[20] = 0;
    assert_eq!(QuantizedArray::read_chunk(&none, 0), Err(ChunkError::Shape));
}

#[test]
fn quantizer_parts_are_checked() {
    assert_eq!(Quantizer::new(None, vec![], 0, 0, 0), Err(ChunkError::Shape));
    assert_eq!(Quantizer::new(None, vec![0; 6], 2, 3, 2), Err(ChunkError::Shape));
    assert_eq!(Quantizer::new(None, vec![0; 7], 2, 4, 2), Err(ChunkError::Shape));
    assert_eq!(Quantizer::new(Some(vec![0; 15]), vec![0; 8], 2, 4, 2), Err(ChunkError::Shape));
    let q = small_quantizer(Some(vec![0; 16]));
    assert_eq!(q.quantized_len(), 2);
    assert_eq!(q.reconstructed_len(), 4);
    assert_eq!(q.n_quantizer_centroids(), 2);
}

#[test]
fn array_parts_are_checked() {
    assert_eq!(
        QuantizedArray::new(small_quantizer(None), vec![0, 1, 1], None),
        Err(ChunkError::Shape)
    );
    assert_eq!(
        QuantizedArray::new(small_quantizer(None), vec![0, 1], Some(vec![1, 2])),
        Err(ChunkError::Shape)
    );
    assert_eq!(
        QuantizedArray::new(small_quantizer(None), vec![0, 2], None),
        Err(ChunkError::Shape)
    );
    let arr = small_array(Some(vec![3, 4]));
    assert_eq!(arr.norms(), Some(&vec![3, 4]));
    assert_eq!(arr.chunk_identifier(), 4);
}
