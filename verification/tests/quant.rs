use ds4::dequant::{dequant_iq2_xxs, dequant_q2k, dequant_q4k, Lane};
use ds4::dot::{dot_iq2_pair_16, dot_q2_16};
use ds4::half::{f16_to_f32, f32_to_f16};
use ds4::matvec::{dot_q8_0_row, q8_0_row_bytes, Q8_0_BLOCK_BYTES};
use ds4::matvec_q::{dot_iq2_xxs_row, dot_q2_k_row, dot_q4_k_row};
use ds4::quant::{blocks, BlockIQ2XXS, BlockQ2K, BlockQ4K, BlockQ8K, QK_K};

fn zero_q2k_block() -> BlockQ2K {
    BlockQ2K { scales: [0; 16], qs: [0; 64], d: 0, dmin: 0 }
}

fn zero_q4k_block() -> BlockQ4K {
    BlockQ4K { d: 0, dmin: 0, scales: [0; 12], qs: [0; 128] }
}

fn zero_iq2_xxs_block() -> BlockIQ2XXS {
    BlockIQ2XXS { d: 0, qs: [0; 32] }
}

fn half(h: u16) -> f32 {
    f32::from_bits(f16_to_f32(h))
}

/// The row dot that the integer sums of a row give.
fn q2_k_dot(row: &[BlockQ2K], xq: &[i8], xscale: &[f32]) -> f32 {
    let mut sum = 0.0;
    for (i, s) in dot_q2_k_row(row, xq).iter().enumerate() {
        let dall = xscale[i] * half(row[i].d);
        let dmin = xscale[i] * half(row[i].dmin);
        sum += dall * s.isum as f32 - dmin * s.summs as f32;
    }
    sum
}

fn q4_k_dot(row: &[BlockQ4K], xq: &[i8], xscale: &[f32]) -> f32 {
    let mut sum = 0.0;
    for (i, g) in dot_q4_k_row(row, xq).iter().enumerate() {
        let d = xscale[i / 4] * half(row[i / 4].d);
        let dmin = xscale[i / 4] * half(row[i / 4].dmin);
        sum += d * g.scale as f32 * g.isum as f32 - dmin * g.min as f32 * g.bsum as f32;
    }
    sum
}

fn iq2_xxs_dot(row: &[BlockIQ2XXS], grid: &[[i8; 8]], xq: &[i8], xscale: &[f32]) -> f32 {
    let mut sum = 0.0;
    for (i, s) in dot_iq2_xxs_row(row, grid, xq).iter().enumerate() {
        sum += half(row[i].d) * xscale[i] * *s as f32;
    }
    0.125 * sum
}

/// Some signed grid.
fn signed_grid() -> Vec<[i8; 8]> {
    let mut grid = vec![[0i8; 8]; 256 * 128];
    for (r, row) in grid.iter_mut().enumerate() {
        for (j, v) in row.iter_mut().enumerate() {
            *v = ((r * 31 + j * 17) % 87) as i8 - 43;
        }
    }
    grid
}

#[test]
fn pair_16_scalar() {
    let g0 = [1, -1, 2, -2, 3, -3, 4, -4];
    let g1 = [5, -5, 6, -6, 7, -7, 8, -8];
    let q8 = [1, 2, 3, 4, 5, 6, 7, 8, 9, 10, 11, 12, 13, 14, 15, 16];
    // Manual expected
    let mut expected = 0;
    for i in 0..8 {
        expected += g0[i] as i32 * q8[i] as i32;
    }
    for i in 0..8 {
        expected += g1[i] as i32 * q8[8 + i] as i32;
    }
    assert_eq!(dot_iq2_pair_16(&g0, &g1, &q8), expected);
}

#[test]
fn q2_shifts_mask_to_2_bits() {
    let q2 = [0b11_10_01_00; 16];
    let q8 = [1; 16];
    assert_eq!(dot_q2_16(&q2, &q8, 0), 16 * 0);
    assert_eq!(dot_q2_16(&q2, &q8, 2), 16 * 1);
    assert_eq!(dot_q2_16(&q2, &q8, 4), 16 * 2);
    assert_eq!(dot_q2_16(&q2, &q8, 6), 16 * 3);
}

#[test]
fn pair_16_extremes() {
    let low = [-128i8; 8];
    assert_eq!(dot_iq2_pair_16(&low, &low, &[-128; 16]), 262144);
    assert_eq!(dot_q2_16(&[0xff; 16], &[-128; 16], 6), -6144);
    // The shift counts modulo eight.
    assert_eq!(dot_q2_16(&[0b11_10_01_00; 16], &[1; 16], 10), 16);
}

#[test]
fn q2k_does_not_panic() {
    let blk = BlockQ2K { scales: [0; 16], qs: [0; 64], d: 0, dmin: 0 };
    let out = dequant_q2k(&blk);
    assert_eq!(out.len(), QK_K);
}

#[test]
fn q2_k_zero_input_is_zero() {
    let blk = zero_q2k_block();
    let xq = vec![0i8; QK_K];
    let xscale = vec![0.0f32; 1];
    let v = q2_k_dot(std::slice::from_ref(&blk), &xq, &xscale);
    assert_eq!(v, 0.0);

    let rows = vec![blk, blk];
    let out: Vec<f32> = rows.iter().map(|r| q2_k_dot(std::slice::from_ref(r), &xq, &xscale)).collect();
    assert_eq!(out, vec![0.0; 2]);
}

#[test]
fn q2_k_constant_one_weight_recovers_activation_sum() {
    // A block whose element at every lane is exactly 1.0.
    let mut blk = zero_q2k_block();
    for i in 0..(QK_K / 4) {
        blk.qs[i] = 0b01_01_01_01;
    }
    for i in 0..(QK_K / 16) {
        blk.scales[i] = 0x01; // dl=1, ml=0
    }
    blk.d = f32_to_f16(1.0f32.to_bits());
    blk.dmin = f32_to_f16(0.0f32.to_bits());

    let mut xq = vec![0i8; QK_K];
    for i in 0..QK_K {
        xq[i] = ((i as i32 % 7) - 3) as i8;
    }
    let xscale = vec![0.5f32];
    let v = q2_k_dot(std::slice::from_ref(&blk), &xq, &xscale);
    let expected: f32 = 0.5 * xq.iter().map(|&q| q as f32).sum::<f32>();
    assert!((v - expected).abs() < 1e-3, "got {v}, expected {expected}");
}

#[test]
fn q4_k_zero_input_is_zero() {
    let blk = zero_q4k_block();
    let xq = vec![0i8; QK_K];
    let xscale = vec![0.0f32; 1];
    let v = q4_k_dot(std::slice::from_ref(&blk), &xq, &xscale);
    assert_eq!(v, 0.0);

    let rows = vec![blk, blk, blk];
    let out: Vec<f32> = rows.iter().map(|r| q4_k_dot(std::slice::from_ref(r), &xq, &xscale)).collect();
    assert_eq!(out, vec![0.0; 3]);
}

#[test]
fn q4_k_constant_one_weight_recovers_activation_sum() {
    let mut blk = zero_q4k_block();
    for i in 0..(QK_K / 2) {
        blk.qs[i] = 0x11;
    }
    for is in 0..4 {
        blk.scales[is] = 1;
        blk.scales[is + 4] = 0;
    }
    blk.d = f32_to_f16(1.0f32.to_bits());
    blk.dmin = f32_to_f16(0.0f32.to_bits());

    let mut xq = vec![0i8; QK_K];
    for i in 0..QK_K {
        xq[i] = ((i as i32 % 11) - 5) as i8;
    }
    let xscale = vec![0.25f32];
    let v = q4_k_dot(std::slice::from_ref(&blk), &xq, &xscale);
    let expected: f32 = 0.25 * xq.iter().map(|&q| q as f32).sum::<f32>();
    assert!((v - expected).abs() < 1e-3, "got {v}, expected {expected}");
}

#[test]
fn iq2_xxs_zero_input_is_zero() {
    let grid = signed_grid();
    let blk = zero_iq2_xxs_block();
    let xq = vec![0i8; QK_K];
    let xscale = vec![0.0f32; 1];
    let v = iq2_xxs_dot(std::slice::from_ref(&blk), &grid, &xq, &xscale);
    assert_eq!(v, 0.0);

    let rows = vec![blk, blk];
    let out: Vec<f32> =
        rows.iter().map(|r| iq2_xxs_dot(std::slice::from_ref(r), &grid, &xq, &xscale)).collect();
    assert_eq!(out, vec![0.0; 2]);
}

#[test]
fn iq2_xxs_dot_matches_dequant_reference() {
    let mut blk = zero_iq2_xxs_block();
    for ib32 in 0..(QK_K / 32) {
        let base = ib32 * 4;
        blk.qs[base] = (1 + ib32 as u16) & 0xff;
        blk.qs[base + 1] = (2 + ib32 as u16) & 0xff;
        let s0: u32 = (ib32 as u32) & 0x7f;
        let s1: u32 = ((ib32 as u32) + 1) & 0x7f;
        let s2: u32 = ((ib32 as u32) + 2) & 0x7f;
        let s3: u32 = ((ib32 as u32) + 3) & 0x7f;
        let ls: u32 = (ib32 as u32) & 0x0f;
        let a1: u32 = s0 | (s1 << 7) | (s2 << 14) | (s3 << 21) | (ls << 28);
        blk.qs[base + 2] = (a1 & 0xffff) as u16;
        blk.qs[base + 3] = (a1 >> 16) as u16;
    }
    blk.d = f32_to_f16(0.75f32.to_bits());

    let mut xq = vec![0i8; QK_K];
    for i in 0..QK_K {
        xq[i] = ((i as i32 * 17) % 51 - 25) as i8;
    }
    let xscale = vec![0.5f32];

    let grid = signed_grid();
    let v = iq2_xxs_dot(std::slice::from_ref(&blk), &grid, &xq, &xscale);

    let mut ref2 = 0.0f64;
    for ib32 in 0..(QK_K / 32) {
        let base = ib32 * 4;
        let a0 = (blk.qs[base] as u32) | ((blk.qs[base + 1] as u32) << 16);
        let a1 = (blk.qs[base + 2] as u32) | ((blk.qs[base + 3] as u32) << 16);
        let gs = [
            (a0 & 0xff) as usize,
            ((a0 >> 8) & 0xff) as usize,
            ((a0 >> 16) & 0xff) as usize,
            ((a0 >> 24) & 0xff) as usize,
        ];
        let ss = [
            (a1 & 0x7f) as usize,
            ((a1 >> 7) & 0x7f) as usize,
            ((a1 >> 14) & 0x7f) as usize,
            ((a1 >> 21) & 0x7f) as usize,
        ];
        let ls = (2 * (a1 >> 28) + 1) as f64;
        let mut sub: f64 = 0.0;
        for q in 0..4 {
            for j in 0..8 {
                let g = grid[gs[q] * 128 + ss[q]][j] as f64;
                sub += g * xq[ib32 * 32 + q * 8 + j] as f64;
            }
        }
        ref2 += sub * ls;
    }
    ref2 *= 0.125 * half(blk.d) as f64 * xscale[0] as f64;
    assert!((v as f64 - ref2).abs() < 1e-3, "got {v}, expected {ref2}");
}

fn varied_xq() -> Vec<i8> {
    (0..QK_K).map(|i| ((i as i32 * 37) % 255 - 127) as i8).collect()
}

#[test]
fn q2_k_sums_are_those_of_the_elements() {
    let mut blk = zero_q2k_block();
    for i in 0..64 {
        blk.qs[i] = (i * 7 + 3) as u8;
    }
    for i in 0..16 {
        blk.scales[i] = (i * 29 + 5) as u8;
    }
    let xq = varied_xq();
    let (mut isum, mut summs) = (0i32, 0i32);
    for (l, lane) in dequant_q2k(&blk).iter().enumerate() {
        isum += lane.scale as i32 * lane.q as i32 * xq[l] as i32;
        summs += lane.min as i32 * xq[l] as i32;
    }
    let sums = dot_q2_k_row(&[blk], &xq);
    assert_eq!((sums[0].isum, sums[0].summs), (isum, summs));
    assert_eq!(dequant_q2k(&blk)[0], Lane { scale: 5, min: 0, q: 3 });
    assert_eq!(dequant_q2k(&blk)[33], Lane { scale: 15, min: 3, q: 2 });
}

#[test]
fn q4_k_sums_are_those_of_the_elements() {
    let mut blk = zero_q4k_block();
    for i in 0..128 {
        blk.qs[i] = (i * 11 + 9) as u8;
    }
    for i in 0..12 {
        blk.scales[i] = (i * 53 + 70) as u8;
    }
    let xq = varied_xq();
    let lanes = dequant_q4k(&blk);
    let groups = dot_q4_k_row(&[blk], &xq);
    assert_eq!(groups.len(), 4);
    for (is, g) in groups.iter().enumerate() {
        let (mut isum, mut bsum) = (0i32, 0i32);
        for l in 64 * is..64 * is + 64 {
            isum += lanes[l].q as i32 * xq[l] as i32;
            bsum += xq[l] as i32;
            assert_eq!((lanes[l].scale as i32, lanes[l].min as i32), (g.scale, g.min));
        }
        assert_eq!((g.isum, g.bsum), (isum, bsum));
    }
    assert_eq!(lanes[0].q, 9);
    assert_eq!(lanes[32].q, 0);
    assert_eq!(lanes[0].scale, 6);
}

#[test]
fn iq2_elements() {
    let mut blk = zero_iq2_xxs_block();
    blk.qs[1] = 0x0302;
    let mut grid = vec![0u64; 256];
    grid[2] = 0xff_19_2b_08_08_08_2b_19;
    let mut signs = vec![[1i8; 8]; 128];
    signs[3] = [1, -1, 1, 1, 1, 1, 1, -1];
    let out = dequant_iq2_xxs(&blk, &grid, &signs);
    assert_eq!(out.len(), 256);
    assert_eq!(&out[8..16], &[0x19, -0x2b, 8, 8, 8, 0x2b, 0x19, 1]);
    assert_eq!(&out[0..8], &[0; 8]);
}

#[test]
fn blocks_read_their_fields() {
    let bytes: Vec<u8> = (0..168u32).map(|i| (i % 251) as u8).collect();
    let q2: Vec<BlockQ2K> = blocks(&bytes);
    assert_eq!(q2.len(), 2);
    assert_eq!(q2[0].scales[0], 0);
    assert_eq!(q2[0].qs[0], 16);
    assert_eq!(q2[0].d, u16::from_le_bytes([80, 81]));
    assert_eq!(q2[1].dmin, u16::from_le_bytes([166, 167]));

    let bytes = vec![0x80u8; 292];
    let q8: Vec<BlockQ8K> = blocks(&bytes);
    assert_eq!(q8[0].d, 0x8080_8080);
    assert_eq!(q8[0].qs[255], -128);
    assert_eq!(q8[0].bsums[15], i16::from_le_bytes([0x80, 0x80]));

    let bytes: Vec<u8> = (0..66).collect();
    let iq2: Vec<BlockIQ2XXS> = blocks(&bytes);
    assert_eq!(iq2[0].d, 0x0100);
    assert_eq!(iq2[0].qs[31], 0x4140);

    let bytes: Vec<u8> = (0..144).collect();
    let q4: Vec<BlockQ4K> = blocks(&bytes);
    assert_eq!(q4[0].dmin, 0x0302);
    assert_eq!(q4[0].scales[11], 15);
    assert_eq!(q4[0].qs[127], 143);
    assert!(blocks::<BlockQ4K>(&[]).is_empty());
}

#[test]
fn q8_0_rows() {
    assert_eq!(Q8_0_BLOCK_BYTES, 34);
    assert_eq!(q8_0_row_bytes(4096), 4352);
    assert_eq!(q8_0_row_bytes(33), 68);
    let mut row = vec![0u8; 68];
    row[0] = 0x00;
    row[1] = 0x3c;
    row[2] = 0xff; // -1
    row[33] = 3;
    row[36] = 2;
    let xq: Vec<i8> = (0..64).map(|i| i as i8 - 31).collect();
    let dots = dot_q8_0_row(&row, &xq);
    assert_eq!(dots.len(), 2);
    assert_eq!((dots[0].d, dots[0].sum), (0x3c00, 31));
    assert_eq!((dots[1].d, dots[1].sum), (0, 2));
}

/// Matrix `c * I` in `Q8_0` blocks, for up to 32 columns.
fn diag_q8_0(dim: usize, c: f32) -> Vec<u8> {
    assert!(dim <= 32);
    let row_bytes = q8_0_row_bytes(dim);
    let mut w = vec![0u8; dim * row_bytes];
    let scale_bits = f32_to_f16(c.to_bits()).to_le_bytes();
    for r in 0..dim {
        let row = &mut w[r * row_bytes..(r + 1) * row_bytes];
        row[0] = scale_bits[0];
        row[1] = scale_bits[1];
        row[2 + r] = 1u8;
    }
    w
}

#[test]
fn diag_q8_0_helper_smoke() {
    let dim = 8usize;
    let w = diag_q8_0(dim, 2.0);
    let row_bytes = q8_0_row_bytes(dim);
    // Activation = [1, 2, 3, ..., 8].
    let x: Vec<f32> = (1..=dim as i32).map(|i| i as f32).collect();
    let mut padded = x.clone();
    padded.resize(32, 0.0);
    let xscale = 8.0f32 / 127.0;
    let xq: Vec<i8> = padded.iter().map(|v| (v / xscale).round() as i8).collect();
    for r in 0..dim {
        let row = &w[r * row_bytes..(r + 1) * row_bytes];
        let got: f32 = dot_q8_0_row(row, &xq).iter().map(|b| half(b.d) * xscale * b.sum as f32).sum();
        let want = 2.0 * x[r];
        // Q8_0 introduces some quant error; allow a generous tolerance.
        assert!((got - want).abs() < 0.5, "row {r}: got {got}, want {want}");
    }
}
