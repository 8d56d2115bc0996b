use orangu::blocks::{
    pack_iq4_nl, pack_iq4_xs, pack_q2_k, pack_q3_k, pack_q4_k, pack_q5_k, pack_q6_k,
    pack_scale_min, pack_signed_scales, unpack_scale_min, unpack_signed_scale, AffineBlock,
    Iq4NlBlock, Iq4XsBlock, Q2Block, Q3Block, Q6Block,
};
use orangu::ieee::{
    brain_to_single, half_to_single, is_greater, is_single_greater, read_le16, read_le32,
    read_le64,
};
use orangu::quant::{
    block_index, decode, fit, plan_tensor, role_of, use_more_bits, AlreadyQuantized, Ftype,
    FtypeError, Model, Role,
};
use orangu::quantize::{
    bf16_bytes, block_size, encode_brain, encode_single, ggml_type_name, pieces, row_bytes,
    rows_per_group, super_block, GGML_TYPE_BF16, GGML_TYPE_F16, GGML_TYPE_F32, GGML_TYPE_IQ4_NL,
    GGML_TYPE_IQ4_XS, GGML_TYPE_Q2_K, GGML_TYPE_Q3_K, GGML_TYPE_Q4_K, GGML_TYPE_Q5_K,
    GGML_TYPE_Q6_K, QK, QK_K,
};

#[test]
fn bf16_keeps_the_exponent_and_rounds_the_mantissa() {
    assert_eq!(bf16_bytes(1.0f32.to_bits()), [0x80, 0x3f]);
    assert_eq!(bf16_bytes((-2.0f32).to_bits()), [0x00, 0xc0]);
    // A value f16 cannot hold at all still round-trips in bf16.
    let big = 1.0e30f32;
    let restored = f32::from_bits(
        decode(GGML_TYPE_BF16, &bf16_bytes(big.to_bits()), 1).unwrap()[0],
    );
    assert!((restored / big - 1.0).abs() < 0.01, "{restored}");
}

/// A dense model with grouped-query attention: 24 blocks, four query heads per key/value head.
const MODEL: Model = Model { layers: 24, gqa: 4 };

#[test]
fn q4_k_m_spends_its_extra_bits_where_the_rules_say() {
    let plan = |name: &str, dims: &[u64]| plan_tensor(Ftype::Q4KM, name, dims, MODEL);

    assert_eq!(plan("output.weight", &[2048, 32768]).ggml_type, GGML_TYPE_Q6_K);
    assert_eq!(plan("token_embd.weight", &[2048, 32768]).ggml_type, GGML_TYPE_Q4_K);
    // The outer blocks get six bits, the middle ones four.
    assert_eq!(plan("blk.0.attn_v.weight", &[2048, 1024]).ggml_type, GGML_TYPE_Q6_K);
    assert_eq!(plan("blk.23.ffn_down.weight", &[8192, 2048]).ggml_type, GGML_TYPE_Q6_K);
    assert_eq!(plan("blk.4.attn_v.weight", &[2048, 1024]).ggml_type, GGML_TYPE_Q4_K);
    assert_eq!(plan("blk.4.attn_q.weight", &[2048, 2048]).ggml_type, GGML_TYPE_Q4_K);
    // Norms are never quantized.
    assert_eq!(plan("blk.4.attn_norm.weight", &[2048]).ggml_type, GGML_TYPE_F32);
    for ftype in Ftype::ALL {
        assert_eq!(
            plan_tensor(ftype, "blk.4.attn_norm.weight", &[2048], MODEL).ggml_type,
            GGML_TYPE_F32,
            "{} quantized a norm",
            ftype.name()
        );
    }
}

#[test]
fn an_awkward_row_length_falls_back_and_is_recorded() {
    // 896 is not a multiple of 256 but is one of 32, so four bits survive as the non-linear type.
    let plan = plan_tensor(Ftype::Q4KM, "blk.1.attn_q.weight", &[896, 896], MODEL);
    assert_eq!(plan.ggml_type, GGML_TYPE_IQ4_NL);
    assert_eq!(plan.fallback_from, Some(GGML_TYPE_Q4_K));

    // Six bits has nowhere narrower to go that is still six bits, so it goes to f16 rather than
    // halving the precision of the tensor it was chosen for.
    let plan = plan_tensor(Ftype::Q4KM, "output.weight", &[100, 32], MODEL);
    assert_eq!(plan.ggml_type, GGML_TYPE_F16);
    assert_eq!(plan.fallback_from, Some(GGML_TYPE_Q6_K));

    let plan = plan_tensor(Ftype::Q4KM, "blk.1.attn_q.weight", &[2048, 2048], MODEL);
    assert_eq!(plan.fallback_from, None);
}

#[test]
fn the_suffixes_differ_where_they_claim_to() {
    let plan = |ftype, name: &str| plan_tensor(ftype, name, &[2048, 2048], MODEL).ggml_type;

    // S carries nothing extra in the middle of the stack; M and L do.
    assert_eq!(plan(Ftype::Q3KS, "blk.12.ffn_down.weight"), GGML_TYPE_Q3_K);
    assert_eq!(plan(Ftype::Q3KM, "blk.12.ffn_down.weight"), GGML_TYPE_Q4_K);
    assert_eq!(plan(Ftype::Q3KL, "blk.12.ffn_down.weight"), GGML_TYPE_Q5_K);

    assert_eq!(plan(Ftype::Q4KS, "blk.12.ffn_down.weight"), GGML_TYPE_Q4_K);
    assert_eq!(plan(Ftype::Q4KM, "blk.0.ffn_down.weight"), GGML_TYPE_Q6_K);
    assert_eq!(plan(Ftype::Q5KM, "blk.0.attn_v.weight"), GGML_TYPE_Q6_K);
    assert_eq!(plan(Ftype::Q5KS, "blk.0.attn_v.weight"), GGML_TYPE_Q5_K);

    // Two bits never lands on the tensors that cannot take it.
    assert_eq!(plan(Ftype::Q2K, "blk.12.ffn_down.weight"), GGML_TYPE_Q3_K);
    assert_eq!(plan(Ftype::Q2K, "blk.12.attn_v.weight"), GGML_TYPE_Q4_K);
    assert_eq!(plan(Ftype::Q2K, "blk.12.attn_q.weight"), GGML_TYPE_Q2_K);

    // The vocabulary projection is six bits in every quantized file, and the plain body type
    // everywhere it is not named.
    for ftype in Ftype::ALL {
        let output = plan(ftype, "output.weight");
        let body = plan(ftype, "blk.12.attn_q.weight");
        if ftype.is_quantized() {
            assert_eq!(output, GGML_TYPE_Q6_K, "{}", ftype.name());
            assert_eq!(body, ftype.base_type(), "{}", ftype.name());
        } else {
            assert_eq!(output, ftype.base_type(), "{}", ftype.name());
        }
    }
}

#[test]
fn grouped_query_attention_changes_where_the_bits_go() {
    let grouped = Model { layers: 24, gqa: 4 };
    let plain = Model { layers: 24, gqa: 1 };
    let at =
        |model| plan_tensor(Ftype::Q2K, "blk.12.attn_v.weight", &[2048, 512], model).ggml_type;
    assert_eq!(at(grouped), GGML_TYPE_Q4_K);
    assert_eq!(at(plain), GGML_TYPE_Q3_K);
}

#[test]
fn a_quantized_source_is_refused_by_name() {
    let err = decode(GGML_TYPE_Q4_K, &[0; 144], 256).unwrap_err().message();
    assert!(err.contains("Q4_K"), "{err}");
    assert!(err.contains("BF16"), "{err}");
}

#[test]
fn file_types_parse_by_every_spelling_they_are_offered_under() {
    assert_eq!(Ftype::parse("bf16").unwrap(), Ftype::Bf16);
    assert_eq!(Ftype::parse("q4_k_m").unwrap(), Ftype::Q4KM);
    assert_eq!(Ftype::parse("Q3_K_L").unwrap(), Ftype::Q3KL);
    assert_eq!(Ftype::parse("iq4_xs").unwrap(), Ftype::IQ4XS);
    // Every name this tool prints has to parse back.
    for ftype in Ftype::ALL {
        assert_eq!(Ftype::parse(ftype.name()).unwrap(), ftype);
    }
}

#[test]
fn the_types_that_are_not_written_say_why() {
    let refused = |name: &str| Ftype::parse(name).unwrap_err().message();

    let iq2 = refused("iq2_xs");
    assert!(iq2.contains("importance matrix"), "{iq2}");

    let q8 = refused("q8_0");
    assert!(q8.contains("Q6_K"), "{q8}");

    let nonsense = refused("q9_z");
    assert!(nonsense.contains("unknown"), "{nonsense}");
}

#[test]
fn refusals_tell_their_reasons_apart() {
    assert!(matches!(Ftype::parse("iq2_xs"), Err(FtypeError::NeedsImportance(_))));
    assert!(matches!(Ftype::parse("q8_0"), Err(FtypeError::Outdated(_))));
    assert!(matches!(Ftype::parse("q9_z"), Err(FtypeError::Unknown(_))));
    assert_eq!(AlreadyQuantized { ggml_type: GGML_TYPE_Q5_K }.ggml_type, GGML_TYPE_Q5_K);
}

#[test]
fn names_have_roles_and_layers() {
    assert_eq!(role_of("token_embd.weight"), Role::TokenEmbedding);
    assert_eq!(role_of("output.weight"), Role::Output);
    assert_eq!(role_of("blk.3.attn_v.weight"), Role::AttentionValue);
    assert_eq!(role_of("blk.3.attn_output.weight"), Role::AttentionOutput);
    assert_eq!(role_of("blk.3.ffn_down.weight"), Role::FeedForwardDown);
    assert_eq!(role_of("blk.3.attn_q.weight"), Role::Other);
    assert_eq!(block_index("blk.17.attn_q.weight"), Some(17));
    assert_eq!(block_index("output.weight"), None);
    assert!(use_more_bits(0, 24));
    assert!(!use_more_bits(4, 24));
    assert!(use_more_bits(23, 24));
}

#[test]
fn every_planned_block_divides_its_row() {
    for ftype in Ftype::ALL {
        for cols in [32u64, 64, 100, 256, 896, 2048] {
            let plan = plan_tensor(ftype, "blk.1.attn_q.weight", &[cols, 64], MODEL);
            assert_eq!(cols as usize % block_size(plan.ggml_type), 0);
        }
    }
    assert_eq!(fit(GGML_TYPE_Q5_K, 256), GGML_TYPE_Q5_K);
    assert_eq!(fit(GGML_TYPE_Q3_K, 64), GGML_TYPE_IQ4_NL);
    assert_eq!(fit(GGML_TYPE_Q4_K, 33), GGML_TYPE_F16);
}

#[test]
fn rows_have_exact_sizes_and_names() {
    assert_eq!(row_bytes(GGML_TYPE_F32, 7), 28);
    assert_eq!(row_bytes(GGML_TYPE_F16, 7), 14);
    assert_eq!(row_bytes(GGML_TYPE_BF16, 7), 14);
    assert_eq!(row_bytes(GGML_TYPE_Q2_K, 512), 168);
    assert_eq!(row_bytes(GGML_TYPE_Q3_K, 512), 220);
    assert_eq!(row_bytes(GGML_TYPE_Q4_K, 512), 288);
    assert_eq!(row_bytes(GGML_TYPE_Q5_K, 512), 352);
    assert_eq!(row_bytes(GGML_TYPE_Q6_K, 512), 420);
    assert_eq!(row_bytes(GGML_TYPE_IQ4_NL, 64), 36);
    assert_eq!(row_bytes(GGML_TYPE_IQ4_XS, 512), 272);
    assert_eq!(block_size(GGML_TYPE_Q4_K), QK_K);
    assert_eq!(block_size(GGML_TYPE_IQ4_NL), QK);
    assert_eq!(block_size(GGML_TYPE_F32), 1);
    assert_eq!(ggml_type_name(GGML_TYPE_Q6_K), "Q6_K");
    assert_eq!(ggml_type_name(GGML_TYPE_BF16), "BF16");
}

#[test]
fn single_precision_round_trips() {
    let values: Vec<u32> = [0.0f32, -1.5, 3.25e10, f32::MIN_POSITIVE]
        .iter()
        .map(|v| v.to_bits())
        .collect();
    let bytes = encode_single(&values);
    assert_eq!(bytes.len(), row_bytes(GGML_TYPE_F32, 2) * 2);
    assert_eq!(bytes[4..8], (-1.5f32).to_le_bytes());
    assert_eq!(decode(GGML_TYPE_F32, &bytes, 4).unwrap(), values);
}

#[test]
fn brain_floats_round_to_the_nearest_even() {
    // Halfway between two brain floats: to the one with an even last bit.
    assert_eq!(bf16_bytes(0x3f80_8000), [0x80, 0x3f]);
    assert_eq!(bf16_bytes(0x3f81_8000), [0x82, 0x3f]);
    assert_eq!(bf16_bytes(0x3f80_8001), [0x81, 0x3f]);
    // A number that is none stays none.
    assert!(f32::from_bits((u16::from_le_bytes(bf16_bytes(0x7f80_0001)) as u32) << 16).is_nan());
    let bytes = encode_brain(&[1.0f32.to_bits(), (-2.0f32).to_bits()]);
    assert_eq!(bytes, vec![0x80, 0x3f, 0x00, 0xc0]);
    assert_eq!(
        decode(GGML_TYPE_BF16, &bytes, 2).unwrap(),
        vec![1.0f32.to_bits(), (-2.0f32).to_bits()]
    );
}

#[test]
fn halves_widen_like_the_half_crate_widens_them() {
    for bits in 0..=u16::MAX {
        assert_eq!(half_to_single(bits), half::f16::from_bits(bits).to_f32().to_bits());
        assert_eq!(brain_to_single(bits), half::bf16::from_bits(bits).to_f32().to_bits());
    }
    let bytes = [0x00, 0x3c, 0x00, 0xc0];
    assert_eq!(
        decode(GGML_TYPE_F16, &bytes, 2).unwrap(),
        vec![1.0f32.to_bits(), (-2.0f32).to_bits()]
    );
}

#[test]
fn bit_patterns_compare_as_their_numbers_do() {
    let numbers = [f64::NEG_INFINITY, -2.0, -0.0, 0.0, 1.0e-310, 1.0, f64::INFINITY, f64::NAN];
    for a in numbers {
        for b in numbers {
            assert_eq!(is_greater(a.to_bits(), b.to_bits()), a > b);
        }
    }
    let singles = [f32::NEG_INFINITY, -2.0, -0.0, 0.0, 1.0e-40, 1.0, f32::INFINITY, f32::NAN];
    for a in singles {
        for b in singles {
            assert_eq!(is_single_greater(a.to_bits(), b.to_bits()), a > b);
        }
    }
    let bytes = [1, 2, 3, 4, 5, 6, 7, 8, 9];
    assert_eq!(read_le16(&bytes, 1), 0x0302);
    assert_eq!(read_le32(&bytes, 1), 0x0504_0302);
    assert_eq!(read_le64(&bytes, 1), 0x0908_0706_0504_0302);
}

#[test]
fn packed_scales_read_back() {
    let scales = [0u8, 63, 17, 32, 5, 48, 31, 62];
    let mins = [63u8, 0, 33, 16, 47, 1, 15, 60];
    let packed = pack_scale_min(&scales, &mins);
    for j in 0..8 {
        assert_eq!(unpack_scale_min(j, &packed), (scales[j], mins[j]));
    }
    let signed = [-32i8, -31, -17, -16, -15, -1, 0, 1, 15, 16, 17, 30, 31, -8, 8, -20];
    let packed = pack_signed_scales(&signed);
    for j in 0..16 {
        assert_eq!(unpack_signed_scale(j, &packed), signed[j] as i32);
    }
}

#[test]
fn packed_blocks_have_their_sizes_and_places() {
    let mut out = vec![7u8];
    pack_q2_k(
        &Q2Block { d: 0x1234, dmin: 0x5678, scales: [3; 16], mins: [9; 16], quants: [2; 256] },
        &mut out,
    );
    assert_eq!(out.len(), 1 + 84);
    assert_eq!(out[0], 7);
    assert_eq!(out[1], 0x93);
    assert_eq!(out[17], 0b10_10_10_10);
    assert_eq!(out[81..85], [0x34, 0x12, 0x78, 0x56]);

    let mut out = Vec::new();
    pack_q3_k(&Q3Block { d: 1, scales: [0; 16], levels: [7; 256] }, &mut out);
    assert_eq!(out.len(), 110);
    assert!(out[..32].iter().all(|b| *b == 0xff));
    assert!(out[32..96].iter().all(|b| *b == 0xff));

    let affine = AffineBlock { d: 1, dmin: 2, scales: [1; 8], mins: [2; 8], quants: [5; 256] };
    let mut out = Vec::new();
    pack_q4_k(&affine, &mut out);
    assert_eq!(out.len(), 144);
    assert!(out[16..].iter().all(|b| *b == 0x55));
    let mut out = Vec::new();
    pack_q5_k(&affine, &mut out);
    assert_eq!(out.len(), 176);
    assert!(out[16..48].iter().all(|b| *b == 0));
    assert!(out[48..].iter().all(|b| *b == 0x55));

    let mut out = Vec::new();
    pack_q6_k(&Q6Block { d: 0x3c00, scales: [-3; 16], quants: [-32; 256] }, &mut out);
    assert_eq!(out.len(), 210);
    assert!(out[..192].iter().all(|b| *b == 0));
    assert!(out[192..208].iter().all(|b| *b == 0xfd));
    assert_eq!(out[208..], [0x00, 0x3c]);

    let mut levels = [1u8; 32];
    levels[16] = 15;
    let mut out = Vec::new();
    pack_iq4_nl(&Iq4NlBlock { d: 0x0102, levels }, &mut out);
    assert_eq!(out.len(), 18);
    assert_eq!(out[..4], [0x02, 0x01, 0xf1, 0x11]);

    let mut out = Vec::new();
    pack_iq4_xs(&Iq4XsBlock { d: 3, scales: [-32; 8], levels: [10; 256] }, &mut out);
    assert_eq!(out.len(), 136);
    assert_eq!(out[..2], [3, 0]);
    assert!(out[2..8].iter().all(|b| *b == 0));
    assert!(out[8..].iter().all(|b| *b == 0xaa));
}

#[test]
fn work_is_cut_into_whole_pieces() {
    assert_eq!(pieces(10, 4), vec![(0, 4), (4, 8), (8, 10)]);
    assert_eq!(pieces(0, 4), vec![]);
    assert_eq!(rows_per_group(1000, 8), 31);
    assert_eq!(rows_per_group(0, 8), 1);
    let short = super_block(&[5u32; 3]);
    assert_eq!(short[..4], [5, 5, 5, 0]);
    assert_eq!(short.len(), 256);
}

#[test]
fn file_types_have_the_formats_own_numbers() {
    let numbers: Vec<(&str, u32)> = Ftype::ALL.iter().map(|f| (f.name(), f.file_type())).collect();
    for wanted in [
        ("F32", 0),
        ("F16", 1),
        ("Q2_K", 10),
        ("Q3_K_S", 11),
        ("Q3_K_M", 12),
        ("Q3_K_L", 13),
        ("Q4_K_S", 14),
        ("Q4_K_M", 15),
        ("Q5_K_S", 16),
        ("Q5_K_M", 17),
        ("Q6_K", 18),
        ("IQ4_NL", 25),
        ("IQ4_XS", 30),
        ("BF16", 32),
    ] {
        assert!(numbers.contains(&wanted), "{wanted:?}");
    }
    assert_eq!(numbers.len(), 14);
    assert!(Ftype::F32.description().starts_with("Every weight in full precision."));
    assert_eq!(Ftype::Q4KM.base_type(), GGML_TYPE_Q4_K);
}

#[test]
fn the_small_four_bit_file_spends_on_the_outermost_down_projections_only() {
    let model = Model { layers: 24, gqa: 4 };
    let plan = |name: &str| plan_tensor(Ftype::Q4KS, name, &[2048, 1024], model);
    let value = plan("blk.0.attn_v.weight");
    assert_eq!((value.ggml_type, value.fallback_from), (GGML_TYPE_Q4_K, None));
    assert_eq!(plan("blk.2.ffn_down.weight").ggml_type, GGML_TYPE_Q5_K);
    assert_eq!(plan("blk.3.ffn_down.weight").ggml_type, GGML_TYPE_Q4_K);
}
