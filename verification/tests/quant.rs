use rayzor_runtime::quant::{
    alloc_qtensor, decode_q4_k_block, half_to_single, parse_q4_k_m, q4_k_quant, q6_k_quant,
    q6_k_scale, qtensor_pool_key, rayzor_qtensor_arc_clone, rayzor_qtensor_clone,
    rayzor_qtensor_cols, rayzor_qtensor_deep_clone, rayzor_qtensor_free,
    rayzor_qtensor_from_bytes_q4_k_m, rayzor_qtensor_from_bytes_q6_k, rayzor_qtensor_numel,
    rayzor_qtensor_rows, rayzor_qtensor_scheme, rayzor_qtensor_wrap_q4_k_m, vec_dot_q4_K_q8_K,
    Q8KBlock, QData, QTensors, Released, Q4_K_M_BLOCK_BYTES, Q4_K_M_BLOCK_SIZE, Q6_K_BLOCK_BYTES,
    QSCHEME_INT8, QSCHEME_Q4_K_M, QSCHEME_Q6_K,
};
use rayzor_runtime::quant_kernels::{
    choose_kernel, lay_out, qmatmul_chunk_impl, qmatmul_chunk_impl_sdot_q4km, qmatmul_prep,
    rayzor_qtensor_dequant,
    rayzor_qtensor_from_f32_int8, rayzor_qtensor_matmul_f32, rayzor_qtensor_requant_q6k_to_q4km,
    rayzor_tensor_gather_rows_q6_k, rayzor_tensor_matmul_qkv_qt_t_f32_threaded,
    rayzor_tensor_matmul_qt_t_f32, rayzor_tensor_matmul_qt_t_f32_chunk,
    rayzor_tensor_matmul_qt_t_f32_threaded, sdot_enabled, split_qkv, worker_count, Band, Format,
    Kernel, Product, QkvAnswer, QkvPlan, Route, TensorHead, Weights,
};

fn half_bits(value: f32) -> [u8; 2] {
    half::f16::from_f32(value).to_bits().to_le_bytes()
}

/// The 256 numbers of a Q4_K_M block.
fn dequant_q4(block: &[u8]) -> Vec<f32> {
    let b = decode_q4_k_block(block);
    let (d, dmin) = (f32::from_bits(b.d), f32::from_bits(b.dmin));
    (0..256)
        .map(|i| {
            let sub = i / 32;
            let q = q4_k_quant(&b.quants, i);
            d * b.scales[sub] as f32 * q as f32 - dmin * b.mins[sub] as f32
        })
        .collect()
}

/// The 256 numbers of a Q6_K block.
fn dequant_q6(block: &[u8]) -> Vec<f32> {
    let d = f32::from_bits(half_to_single(u16::from_le_bytes([block[208], block[209]])));
    (0..256).map(|i| d * q6_k_scale(block, i) as f32 * q6_k_quant(block, i) as f32).collect()
}

fn bits(v: Vec<f32>) -> Vec<u32> {
    v.into_iter().map(f32::to_bits).collect()
}

/// A block whose numbers are all `value`.
fn build_constant_block(value: f32) -> Vec<u8> {
    let mut block = vec![0u8; Q4_K_M_BLOCK_BYTES];
    block[0..2].copy_from_slice(&half_bits(value));
    block[2..4].copy_from_slice(&half_bits(0.0));
    for j in 0..4 {
        block[4 + j] = 1;
        block[8 + j] = 0;
    }
    for j in 0..4 {
        block[12 + j] = 0x01;
    }
    for i in 16..16 + 128 {
        block[i] = 0x11;
    }
    block
}

fn plus(a: u32, b: u32) -> u32 {
    (f32::from_bits(a) + f32::from_bits(b)).to_bits()
}

fn no_scale(_q: i8, _s: u32) -> u32 {
    unreachable!()
}

/// The numbers of a Q4_K_M matrix over `blocks`.
fn dequant_all(blocks: &[u8], rows: i64, cols: i64) -> Vec<f32> {
    let mut store = QTensors::new();
    let qt = rayzor_qtensor_from_bytes_q4_k_m(&mut store, Some((1, blocks.len())), rows, cols);
    assert!(qt != 0);
    let decode = |offset: usize| bits(dequant_q4(&blocks[offset..offset + Q4_K_M_BLOCK_BYTES]));
    let out = rayzor_qtensor_dequant(&store, qt, &decode, &no_scale).unwrap();
    assert_eq!(rayzor_qtensor_free(&mut store, qt), Released::Wrapper);
    out.into_iter().map(f32::from_bits).collect()
}

#[test]
fn q6_k_block_dequant_matches_reference() {
    let mut block = vec![0u8; Q6_K_BLOCK_BYTES];
    block[0] = 0x0A;
    block[128] = 0b00000010;
    block[192] = 3;
    block[208..210].copy_from_slice(&half_bits(0.25));

    let out = dequant_q6(&block);
    assert!((out[0] - 7.5).abs() < 1e-3, "out[0] = {} (expected 7.5)", out[0]);
    for i in 1..16 {
        assert!((out[i] - (-24.0)).abs() < 1e-3, "out[{i}] = {}", out[i]);
    }
}

#[test]
fn q4_k_m_block_round_trip() {
    let mut block = vec![0u8; Q4_K_M_BLOCK_BYTES];
    block[0..2].copy_from_slice(&half_bits(2.0));
    block[2..4].copy_from_slice(&half_bits(1.0));
    block[4] = 1;
    block[8] = 1;

    let decoded = decode_q4_k_block(&block);
    let (d, dmin) = (f32::from_bits(decoded.d), f32::from_bits(decoded.dmin));
    assert!((d - 2.0).abs() < 1e-3);
    assert!((dmin - 1.0).abs() < 1e-3);
    assert!((d * decoded.scales[0] as f32 - 2.0).abs() < 1e-3);
    assert!((dmin * decoded.mins[0] as f32 - 1.0).abs() < 1e-3);

    let out = dequant_q4(&block);
    for i in 0..32 {
        assert!((out[i] - (-1.0)).abs() < 1e-3, "out[{i}] = {}", out[i]);
    }
}

#[test]
fn from_bytes_q4_k_m_copies_and_wraps() {
    let mut block = vec![0u8; Q4_K_M_BLOCK_BYTES];
    block[0..2].copy_from_slice(&half_bits(1.0));
    block[2..4].copy_from_slice(&half_bits(0.0));
    let address = block.as_ptr() as usize;

    let mut store = QTensors::new();
    let qt = rayzor_qtensor_from_bytes_q4_k_m(&mut store, Some((address, block.len())), 1, 256);
    assert!(qt != 0);
    let t = store.slots[qt as usize - 1].as_ref().unwrap();
    assert_eq!(t.rows, 1);
    assert_eq!(t.cols, 256);
    assert_eq!(t.scheme, QSCHEME_Q4_K_M);
    assert!(matches!(t.data, QData::Shared(a) if a == address));
    assert_eq!(rayzor_qtensor_free(&mut store, qt), Released::Wrapper);
}

#[test]
fn from_bytes_q4_k_m_rejects_bad_input() {
    let mut store = QTensors::new();
    assert_eq!(rayzor_qtensor_from_bytes_q4_k_m(&mut store, Some((0, 0)), 1, 100), 0);
    assert_eq!(rayzor_qtensor_from_bytes_q4_k_m(&mut store, None, 1, 256), 0);
    assert_eq!(rayzor_qtensor_from_bytes_q4_k_m(&mut store, Some((8, 144)), 1, 100), 0);
    assert_eq!(rayzor_qtensor_from_bytes_q4_k_m(&mut store, Some((8, 143)), 1, 256), 0);
    assert_eq!(rayzor_qtensor_from_bytes_q4_k_m(&mut store, Some((8, 144)), 0, 256), 0);
    assert_eq!(rayzor_qtensor_from_bytes_q6_k(&mut store, Some((8, 209)), 1, 256), 0);
    assert!(rayzor_qtensor_from_bytes_q6_k(&mut store, Some((8, 210)), 1, 256) != 0);
}

#[test]
fn dequant_preserves_block_order_in_linear_memory() {
    let blocks: Vec<u8> = (1..=4).flat_map(|v| build_constant_block(v as f32)).collect();
    assert_eq!(blocks.len(), 4 * Q4_K_M_BLOCK_BYTES);
    for (rows, cols) in [(4, 256), (1, 1024)] {
        let out = dequant_all(&blocks, rows, cols);
        assert_eq!(out.len(), 4 * Q4_K_M_BLOCK_SIZE);
        for b in 0..4 {
            for i in 0..256 {
                let expected = (b + 1) as f32;
                assert!(
                    (out[b * 256 + i] - expected).abs() < 1e-3,
                    "block{b}[{i}] = {} (expected {})",
                    out[b * 256 + i],
                    expected
                );
            }
        }
    }
}

fn pytorch_blocks() -> Vec<u8> {
    let mut blocks: Vec<u8> = Vec::with_capacity(512 * Q4_K_M_BLOCK_BYTES);
    for o in 0..256 {
        let v = (o + 1) as f32;
        blocks.extend_from_slice(&build_constant_block(v));
        blocks.extend_from_slice(&build_constant_block(v));
    }
    blocks
}

#[test]
fn dequant_shape_matches_pytorch_weight_layout() {
    let blocks = pytorch_blocks();
    assert_eq!(blocks.len(), 512 * Q4_K_M_BLOCK_BYTES);
    let dq = dequant_all(&blocks, 256, 512);
    for o in 0..256 {
        for i in 0..512 {
            assert!((dq[o * 512 + i] - (o + 1) as f32).abs() <= 1e-3);
        }
    }
}

#[test]
fn matmul_qt_t_f32_matches_dequant_then_matmul_t() {
    let blocks = pytorch_blocks();
    let (batch, k) = (3usize, 512usize);
    let mut x: Vec<f32> = Vec::with_capacity(batch * k);
    x.extend(std::iter::repeat(1.0).take(k));
    x.extend(std::iter::repeat(0.5).take(k));
    x.extend((0..k).map(|kk| kk as f32 / 256.0));

    let dq = dequant_all(&blocks, 256, 512);
    let head = TensorHead { shape: vec![batch, k], strides: vec![k, 1], dtype: 0 };
    let w = Weights { scheme: QSCHEME_Q4_K_M, rows: 256, cols: 512 };
    let dot = |block: usize, at: usize, stride: usize| {
        let numbers = dequant_q4(&blocks[block..block + Q4_K_M_BLOCK_BYTES]);
        (0..256).map(|i| numbers[i] * x[at + i * stride]).sum::<f32>().to_bits()
    };
    let y = rayzor_tensor_matmul_qt_t_f32(&dot, &plus, Some(&head), Some(w)).unwrap();
    assert_eq!(y.len(), batch * 256);
    for b in 0..batch {
        for n in 0..256 {
            let expected: f32 = (0..k).map(|i| x[b * k + i] * dq[n * k + i]).sum();
            let got = f32::from_bits(y[b * 256 + n]);
            let tol = 1e-4 * expected.abs().max(1.0);
            assert!((expected - got).abs() < tol, "y[{b},{n}]: {} {}", expected, got);
        }
    }
}

#[test]
fn q4_k_m_free_bypasses_pool() {
    let mut store = QTensors::new();
    let key = qtensor_pool_key(QSCHEME_Q4_K_M, 1, 256, Q4_K_M_BLOCK_SIZE);
    assert_eq!(key.dtype, 0x81);
    for _ in 0..10 {
        let block = vec![0u8; Q4_K_M_BLOCK_BYTES];
        let qt = rayzor_qtensor_wrap_q4_k_m(
            &mut store,
            Some(QData::Owned(block)),
            1,
            Q4_K_M_BLOCK_SIZE as i64,
        );
        assert!(qt != 0);
        assert_eq!(rayzor_qtensor_free(&mut store, qt), Released::Freed);
    }
    assert!(store.parked.is_empty(), "Q4_K_M frees must not park anything");
}

#[test]
fn null_blocks_are_not_wrapped() {
    let mut store = QTensors::new();
    assert_eq!(rayzor_qtensor_wrap_q4_k_m(&mut store, Some(QData::Shared(0)), 1, 256), 0);
    assert_eq!(rayzor_qtensor_wrap_q4_k_m(&mut store, None, 1, 256), 0);
    assert_eq!(rayzor_qtensor_wrap_q4_k_m(&mut store, Some(QData::Shared(8)), 1, 100), 0);
    assert_eq!(rayzor_qtensor_wrap_q4_k_m(&mut store, Some(QData::Shared(8)), 1, 256), 1);
}

/// 256 numbers as 8-bit integers with a common scale.
fn quantize_q8(x: &[f32]) -> Q8KBlock {
    let max = x.iter().fold(0.0f32, |m, v| m.max(v.abs()));
    let d = max / 127.0;
    let qs: Vec<i8> = x
        .iter()
        .map(|v| if d == 0.0 { 0 } else { (v / d).round().clamp(-128.0, 127.0) as i8 })
        .collect();
    let bsums = (0..16).map(|s| qs[s * 16..s * 16 + 16].iter().map(|q| *q as i16).sum()).collect();
    Q8KBlock { d: d.to_bits(), qs, bsums }
}

fn dot_blocks(raw: &[u8], x: &Q8KBlock) -> f32 {
    let w = parse_q4_k_m(raw);
    let d = f32::from_bits(half_to_single(w.d));
    let dmin = f32::from_bits(half_to_single(w.dmin));
    let mut acc = 0.0f32;
    for s in vec_dot_q4_K_q8_K(&w, x) {
        acc += d * s.scale as f32 * s.products as f32 - dmin * s.min as f32 * s.activations as f32;
    }
    f32::from_bits(x.d) * acc
}

#[test]
fn vec_dot_q4_k_q8_k_matches_dequant_then_dot() {
    let mut raw = vec![0u8; Q4_K_M_BLOCK_BYTES];
    raw[0..2].copy_from_slice(&half_bits(0.5));
    raw[2..4].copy_from_slice(&half_bits(0.25));
    for j in 0..4 {
        raw[4 + j] = (j as u8 + 1) & 0x3F;
        raw[8 + j] = (j as u8) & 0x3F;
    }
    for j in 0..4 {
        raw[12 + j] = ((j as u8 + 2) & 0x0F) | (((j as u8 + 1) & 0x0F) << 4);
    }
    for i in 0..128 {
        raw[16 + i] = ((i as u8).wrapping_mul(7).wrapping_add(3)) ^ 0xA5;
    }
    let mut x = [0.0f32; 256];
    for (i, slot) in x.iter_mut().enumerate() {
        let phase = (i as f32) * 0.1;
        *slot = phase.sin() * (1.0 + (i as f32 * 0.01).cos());
    }
    let q8 = quantize_q8(&x);
    let dot = dot_blocks(&raw, &q8);

    let dq = dequant_q4(&raw);
    let dot_ref: f32 = (0..256).map(|i| dq[i] * x[i]).sum();
    let rel = (dot - dot_ref).abs() / dot_ref.abs().max(dot.abs()).max(1e-6);
    assert!(rel < 5e-3, "dot = {}, reference = {}, rel = {}", dot, dot_ref, rel);

    let d = f32::from_bits(q8.d);
    let dot_dq: f32 = (0..256).map(|i| dq[i] * (d * q8.qs[i] as f32)).sum();
    let rel_dq = (dot - dot_dq).abs() / dot_dq.abs().max(dot.abs()).max(1e-6);
    assert!(rel_dq < 1e-4, "dot = {}, reference = {}, rel = {}", dot, dot_dq, rel_dq);
}

#[test]
fn vec_dot_q4_k_q8_k_zero_block() {
    let mut raw = vec![0u8; Q4_K_M_BLOCK_BYTES];
    raw[0..2].copy_from_slice(&half_bits(1.5));
    raw[2..4].copy_from_slice(&half_bits(0.75));
    for j in 0..4 {
        raw[4 + j] = 7;
        raw[8 + j] = 3;
    }
    for j in 0..4 {
        raw[12 + j] = 0x21;
    }
    for i in 0..128 {
        raw[16 + i] = 0xCB;
    }
    let q8 = quantize_q8(&[0.0f32; 256]);
    assert_eq!(f32::from_bits(q8.d), 0.0);
    assert!(q8.qs.iter().all(|q| *q == 0));
    assert!(q8.bsums.iter().all(|b| *b == 0));
    for s in vec_dot_q4_K_q8_K(&parse_q4_k_m(&raw), &q8) {
        assert_eq!((s.products, s.activations), (0, 0));
    }
    assert_eq!(dot_blocks(&raw, &q8), 0.0);
}

#[test]
fn high_sub_blocks_take_bits_from_three_places() {
    let mut raw = vec![0u8; Q4_K_M_BLOCK_BYTES];
    raw[4] = 0b1100_0001;
    raw[8] = 0b0100_0010;
    raw[12] = 0xA5;
    let b = decode_q4_k_block(&raw);
    assert_eq!((b.scales[0], b.mins[0]), (1, 2));
    assert_eq!((b.scales[4], b.mins[4]), (5 + 3 * 16, 10 + 16));
}

#[test]
fn half_precision_numbers_are_widened() {
    for h in [0u16, 0x8000, 1, 0x8001, 0x03ff, 0x0400, 0x3c00, 0xc000, 0x7bff, 0x7c00, 0xfc00] {
        let expected = half::f16::from_bits(h).to_f32();
        assert_eq!(f32::from_bits(half_to_single(h)).to_bits(), expected.to_bits());
    }
    assert!(f32::from_bits(half_to_single(0x7e00)).is_nan());
    assert!(f32::from_bits(half_to_single(0xfc01)).is_nan());
}

#[test]
fn blocks_are_laid_out_in_their_order() {
    let blocks: Vec<Vec<u32>> = (1..=4).map(|v| vec![v; 256]).collect();
    let flat: Vec<u32> = blocks.concat();
    for (rows, cols) in [(4, 256), (2, 512), (1, 1024)] {
        assert_eq!(lay_out(&blocks, rows, cols), flat);
    }
    let padded = lay_out(&blocks, 4, 258);
    assert_eq!(&padded[254..260], &[1, 1, 0, 0, 2, 2]);
}

#[test]
fn weights_without_blocks_are_not_multiplied() {
    let dot = |block: usize, _at: usize, _stride: usize| (block as f32 + 1.0).to_bits();
    let p = Product { batch: 1, n: 2, k: 256, block_size: 256, block_bytes: 144 };
    let mut y = vec![7u32; 2];
    qmatmul_chunk_impl(&dot, &plus, p, QSCHEME_INT8, 256, 1, &mut y, 0, 2);
    assert_eq!(y, [7, 7]);
    qmatmul_chunk_impl(&dot, &plus, p, QSCHEME_Q4_K_M, 256, 1, &mut y, 1, 2);
    assert_eq!(y, [7, 145.0f32.to_bits()]);
}

#[test]
fn tensors_are_shared_and_parked() {
    let mut store = QTensors::new();
    let quantise = |r: usize| (vec![r as u8 + 1, 0xff, 3, 4], (0.5f32 * (r + 1) as f32).to_bits());
    let qt = rayzor_qtensor_from_f32_int8(&mut store, true, &quantise, 2, 4);
    assert_eq!(qt, 1);
    assert_eq!(rayzor_qtensor_rows(&store, qt), 2);
    assert_eq!(rayzor_qtensor_cols(&store, qt), 4);
    assert_eq!(rayzor_qtensor_numel(&store, qt), 8);
    assert_eq!(rayzor_qtensor_scheme(&store, qt), QSCHEME_INT8 as i64);
    assert_eq!(rayzor_qtensor_rows(&store, 0), 0);

    let scale = |q: i8, s: u32| (q as f32 * f32::from_bits(s)).to_bits();
    let decode = |_offset: usize| -> Vec<u32> { unreachable!() };
    let out = rayzor_qtensor_dequant(&store, qt, &decode, &scale).unwrap();
    let out: Vec<f32> = out.into_iter().map(f32::from_bits).collect();
    assert_eq!(out, vec![0.5, -0.5, 1.5, 2.0, 2.0, -1.0, 3.0, 4.0]);

    let copy = rayzor_qtensor_deep_clone(&mut store, qt, &[]);
    assert_eq!(copy, 2);
    assert_eq!(rayzor_qtensor_clone(&mut store, qt), qt);
    assert_eq!(rayzor_qtensor_arc_clone(&mut store, 77), 0);
    assert_eq!(rayzor_qtensor_free(&mut store, qt), Released::Kept);
    assert_eq!(rayzor_qtensor_free(&mut store, qt), Released::Parked);
    assert_eq!(rayzor_qtensor_free(&mut store, qt), Released::Nothing);
    assert_eq!(store.parked.len(), 1);

    let again = alloc_qtensor(&mut store, QSCHEME_INT8, 2, 4, 4);
    assert_eq!(again, 3);
    assert!(store.parked.is_empty());
    let t = store.slots[2].as_ref().unwrap();
    assert!(matches!(&t.data, QData::Owned(v) if v.iter().all(|b| *b == 0) && v.len() == 8));
    assert_eq!(t.meta, Some(vec![0, 0]));
    assert_eq!(alloc_qtensor(&mut store, QSCHEME_Q6_K, 1, 256, 256), 0);
    assert_eq!(rayzor_qtensor_from_f32_int8(&mut store, false, &quantise, 2, 4), 0);
}

#[test]
fn rows_are_gathered_and_converted() {
    let blocks: Vec<u8> = (0..3)
        .flat_map(|r| {
            let mut b = vec![0u8; Q6_K_BLOCK_BYTES];
            b[192] = r + 1;
            b[208..210].copy_from_slice(&half_bits(1.0));
            b
        })
        .collect();
    let decode = |offset: usize| bits(dequant_q6(&blocks[offset..offset + Q6_K_BLOCK_BYTES]));
    let w = Weights { scheme: QSCHEME_Q6_K, rows: 3, cols: 256 };
    let out =
        rayzor_tensor_gather_rows_q6_k(&decode, Some(w), Some(&vec![2, -1, 0, 3])).unwrap();
    assert_eq!(out.len(), 4 * 256);
    assert_eq!(f32::from_bits(out[0]), -96.0);
    assert_eq!(out[256], 0);
    assert_eq!(f32::from_bits(out[512]), -32.0);
    assert_eq!(out[768], 0);
    assert!(rayzor_tensor_gather_rows_q6_k(&decode, Some(w), Some(&vec![])).is_none());
    let q4 = Weights { scheme: QSCHEME_Q4_K_M, rows: 3, cols: 256 };
    assert!(rayzor_tensor_gather_rows_q6_k(&decode, Some(q4), Some(&vec![0])).is_none());

    let mut store = QTensors::new();
    let src = rayzor_qtensor_from_bytes_q6_k(&mut store, Some((8, blocks.len())), 3, 256);
    let recode = |offset: usize| vec![(offset / Q6_K_BLOCK_BYTES) as u8; Q4_K_M_BLOCK_BYTES];
    let dst = rayzor_qtensor_requant_q6k_to_q4km(&mut store, src, &recode);
    assert_eq!(dst, 2);
    match &store.slots[1].as_ref().unwrap().data {
        QData::Owned(v) => {
            assert_eq!(v.len(), 3 * Q4_K_M_BLOCK_BYTES);
            assert_eq!((v[0], v[144], v[431]), (0, 1, 2));
        }
        QData::Shared(_) => unreachable!(),
    }
    assert_eq!(rayzor_qtensor_requant_q6k_to_q4km(&mut store, dst, &recode), 0);
}

#[test]
fn products_are_planned() {
    let x = TensorHead { shape: vec![1, 512], strides: vec![512, 1], dtype: 0 };
    let w = Weights { scheme: QSCHEME_Q4_K_M, rows: 10, cols: 512 };
    let product =
        Product { batch: 1, n: 10, k: 512, block_size: 256, block_bytes: Q4_K_M_BLOCK_BYTES };
    assert_eq!(qmatmul_prep(&x, w), Some(product));
    assert_eq!(qmatmul_prep(&x, Weights { cols: 256, ..w }), None);
    assert_eq!(qmatmul_prep(&x, Weights { scheme: QSCHEME_INT8, ..w }), None);

    let plan = rayzor_tensor_matmul_qt_t_f32_threaded(Some(&x), Some(w), 0, true).unwrap();
    assert_eq!((plan.threads, plan.route), (6, Route::SharedActivations));
    let plan = rayzor_tensor_matmul_qt_t_f32_threaded(Some(&x), Some(w), 100, false).unwrap();
    assert_eq!((plan.threads, plan.route), (10, Route::Separate));
    assert!(rayzor_tensor_matmul_qt_t_f32_threaded(None, Some(w), 1, true).is_none());
    assert_eq!(rayzor_tensor_matmul_qt_t_f32_chunk(Some(&x), Some(w), true, false).0, 1);
    assert_eq!(rayzor_tensor_matmul_qt_t_f32_chunk(Some(&x), Some(w), false, false).0, 0);
    assert_eq!(worker_count(100, 1000), 64);
    assert_eq!(worker_count(3, 0), 1);

    let b = TensorHead { shape: vec![512, 7], strides: vec![7, 1], dtype: 0 };
    assert_eq!(rayzor_qtensor_matmul_f32(Some(w), Some(&b)), Some((10, 512, 7, Format::Q4KM)));
    let q6 = Weights { scheme: QSCHEME_Q6_K, ..w };
    assert_eq!(rayzor_qtensor_matmul_f32(Some(q6), Some(&b)), None);
}

#[test]
fn qkv_products_share_their_rows() {
    let x = TensorHead { shape: vec![1, 256], strides: vec![256, 1], dtype: 0 };
    let q = Weights { scheme: QSCHEME_Q4_K_M, rows: 8, cols: 256 };
    let kv = Weights { scheme: QSCHEME_Q4_K_M, rows: 4, cols: 256 };
    let ask = |x, q, k, given, sdot| {
        rayzor_tensor_matmul_qkv_qt_t_f32_threaded(x, q, k, Some(kv), given, 0, sdot)
    };
    let plan = QkvPlan { batch: 1, k: 256, q_n: 8, k_n: 4, v_n: 4, threads: 6 };
    assert_eq!(ask(Some(&x), Some(q), Some(kv), true, true), QkvAnswer::Ready(plan));
    assert_eq!(ask(None, Some(q), Some(kv), true, true), QkvAnswer::Refused(1));
    assert_eq!(ask(Some(&x), Some(q), Some(kv), false, true), QkvAnswer::Refused(1));
    let odd = Weights { cols: 512, ..kv };
    assert_eq!(ask(Some(&x), Some(q), Some(odd), true, true), QkvAnswer::Refused(2));
    assert_eq!(ask(Some(&x), Some(q), Some(kv), true, false), QkvAnswer::Refused(4));
    let q6 = Weights { scheme: QSCHEME_Q6_K, ..q };
    assert_eq!(ask(Some(&x), Some(q6), Some(kv), true, true), QkvAnswer::Refused(4));

    assert_eq!(
        split_qkv(plan, 6, 13),
        (Some(Band { lo: 6, hi: 8 }), Some(Band { lo: 0, hi: 4 }), Some(Band { lo: 0, hi: 1 }))
    );
    assert_eq!(split_qkv(plan, 9, 11), (None, Some(Band { lo: 1, hi: 3 }), None));
}

#[test]
fn kernels_differ_in_their_order_only() {
    assert!(sdot_enabled(true, true, None));
    assert!(sdot_enabled(true, true, Some(b"1")));
    assert!(!sdot_enabled(true, true, Some(b"0")));
    assert!(!sdot_enabled(true, true, Some(b"")));
    assert!(!sdot_enabled(true, false, None));
    assert_eq!(choose_kernel(true, Some(b"1"), 4), Kernel::Paired);
    assert_eq!(choose_kernel(true, Some(b"1"), 3), Kernel::Single);
    assert_eq!(choose_kernel(true, None, 4), Kernel::Single);

    let p = Product { batch: 1, n: 3, k: 512, block_size: 256, block_bytes: 144 };
    let dot = |block: usize, i: usize| ((block / 144 * 10 + i) as f32).to_bits();
    for kernel in [Kernel::Single, Kernel::Paired] {
        let mut y = vec![7.0f32.to_bits(); 3];
        qmatmul_chunk_impl_sdot_q4km(&dot, &plus, p, kernel, &mut y, -2, 2);
        let y: Vec<f32> = y.into_iter().map(f32::from_bits).collect();
        assert_eq!(y, vec![11.0, 51.0, 7.0]);
    }
}
