use orangu::gguf::{array_i64, array_strings, scalar_u64, string, GgufValue};
use orangu::hadamard::{
    permute_tiled_to_grouped, FoldError, FoldLedger, HadamardFold, Rotation, Spec, AXIS, KEY_AXIS,
    KEY_BLOCK_SIZE, KEY_GDN_V_GROUPED, KEY_INVERSE_NAMES, KEY_SIGN_MODE, KEY_SIGN_VALUES,
    KEY_SIGN_WIDTHS, KEY_TRANSFORM, KEY_VERSION, KEY_WEIGHT_NAMES, TRANSFORM,
};

fn kv(key: &str, value: GgufValue) -> (String, GgufValue) {
    (key.to_string(), value)
}

fn strings(items: &[&str]) -> GgufValue {
    GgufValue::Array(items.iter().map(|s| GgufValue::String(s.to_string())).collect())
}

fn ints(items: &[i64]) -> GgufValue {
    GgufValue::Array(items.iter().map(|&v| GgufValue::I32(v as i32)).collect())
}

/// A fold at block 4 over widths 8 and 12, so a whole matrix fits in a test.
fn metadata(sign_mode: &str) -> Vec<(String, GgufValue)> {
    let mut m = vec![
        kv(KEY_VERSION, GgufValue::U32(1)),
        kv(KEY_BLOCK_SIZE, GgufValue::U32(4)),
        kv(KEY_TRANSFORM, GgufValue::String(TRANSFORM.into())),
        kv(KEY_AXIS, GgufValue::String(AXIS.into())),
        kv(KEY_SIGN_MODE, GgufValue::String(sign_mode.into())),
        kv(
            KEY_WEIGHT_NAMES,
            strings(&["output.weight", "blk.0.ffn_up.weight", "blk.0.ssm_out.weight"]),
        ),
        kv(KEY_INVERSE_NAMES, strings(&["token_embd.weight"])),
        kv(KEY_GDN_V_GROUPED, GgufValue::Bool(true)),
    ];
    if sign_mode == "explicit" {
        m.push(kv(KEY_SIGN_WIDTHS, ints(&[8, 12])));
        m.push(kv(
            KEY_SIGN_VALUES,
            ints(&[1, -1, 1, 1, -1, -1, 1, -1, 1, 1, 1, -1, -1, 1, -1, 1, 1, -1, -1, 1]),
        ));
    }
    m
}

fn explicit() -> HadamardFold {
    HadamardFold::from_metadata(&metadata("explicit")).unwrap().unwrap()
}

fn identity() -> HadamardFold {
    HadamardFold::from_metadata(&metadata("identity")).unwrap().unwrap()
}

#[test]
fn a_file_without_the_keys_declares_no_fold() {
    assert!(HadamardFold::from_metadata(&[]).unwrap().is_none());
    assert!(HadamardFold::header_support(&[]).is_none());
}

#[test]
fn the_declaration_is_read_and_validated() {
    let fold = explicit();
    assert_eq!(fold.block_size(), 4);
    assert!(fold.is_folded("output.weight"));
    assert!(!fold.is_folded("token_embd.weight"));
    assert!(!fold.is_folded("blk.0.ssm_beta.weight"));
    assert!(fold.inverse_rotation("token_embd.weight", 8).unwrap().is_some());
    assert!(fold.inverse_rotation("output.weight", 8).unwrap().is_none());
    assert!(fold.input_rotation("blk.0.ffn_gate.weight", 8, None).unwrap().is_none());
    assert!(HadamardFold::header_support(&metadata("explicit")).is_none());

    // Identity sign mode needs no widths or values.
    let fold = identity();
    let rot = fold.input_rotation("output.weight", 8, None).unwrap().unwrap();
    assert!(rot.signs.is_none());
}

#[test]
fn a_fold_this_build_cannot_run_is_refused_by_both_readers() {
    let cases: Vec<(&str, Vec<(String, GgufValue)>)> = vec![
        ("version", {
            let mut m = metadata("explicit");
            m[0] = kv(KEY_VERSION, GgufValue::U32(2));
            m
        }),
        ("transform", {
            let mut m = metadata("explicit");
            m[2] = kv(KEY_TRANSFORM, GgufValue::String("dct".into()));
            m
        }),
        ("axis", {
            let mut m = metadata("explicit");
            m[3] = kv(KEY_AXIS, GgufValue::String("output".into()));
            m
        }),
        ("sign mode", {
            let mut m = metadata("explicit");
            m[4] = kv(KEY_SIGN_MODE, GgufValue::String("hashed".into()));
            m
        }),
        ("block size", {
            let mut m = metadata("explicit");
            m[1] = kv(KEY_BLOCK_SIZE, GgufValue::U32(6));
            m
        }),
        ("sign width", {
            let mut m = metadata("explicit");
            m[8] = kv(KEY_SIGN_WIDTHS, ints(&[6, 14]));
            m
        }),
    ];
    for (what, m) in cases {
        assert!(HadamardFold::from_metadata(&m).is_err(), "{what} at load");
        assert!(HadamardFold::header_support(&m).is_some(), "{what} in list");
    }
    // A bad sign *value* is only visible with the values present — which the summary header does
    // not carry, so only the load sees it.
    let mut m = metadata("explicit");
    m[9] = kv(KEY_SIGN_VALUES, ints(&[1; 20]));
    assert!(HadamardFold::from_metadata(&m).is_ok());
    let mut bad = vec![1i64; 20];
    bad[3] = 2;
    m[9] = kv(KEY_SIGN_VALUES, ints(&bad));
    assert!(HadamardFold::from_metadata(&m).is_err());
    assert!(HadamardFold::header_support(&m).is_none());
}

#[test]
fn a_width_with_no_sign_vector_or_off_the_block_grid_is_refused() {
    let fold = explicit();
    assert!(fold.input_rotation("output.weight", 16, None).is_err(), "no signs at 16");
    assert!(fold.input_rotation("output.weight", 6, None).is_err(), "6 is not 4-aligned");
    assert!(fold.input_rotation("output.weight", 12, None).unwrap().is_some());
}

/// The `ssm_out` input arrives tiled (`v = k + n_k·r`) and the fold was taken grouped
/// (`v = r + rep·k`); with `hd = 2, n_k = 2, rep = 3` the twelve elements move as the index
/// formula says, before any signs.
#[test]
fn a_gdn_v_grouped_ssm_out_input_is_regrouped_before_the_rotation() {
    let fold = identity();
    let rot = fold.input_rotation("blk.0.ssm_out.weight", 12, Some((6, 2))).unwrap().unwrap();
    assert_eq!(rot.perm, Some((2, 2, 3)));
    // Tiled: head v = k + 2r holds values 10v, 10v+1.
    let x: Vec<f32> = (0..6).flat_map(|v| [10.0 * v as f32, 10.0 * v as f32 + 1.0]).collect();
    let mut scratch = Vec::new();
    let mut row = x.clone();
    permute_tiled_to_grouped(&mut row, 2, 2, 3, &mut scratch);
    // Grouped: position r + 3k holds tiled head k + 2r.
    let mut want = vec![0f32; 12];
    for k in 0..2 {
        for r in 0..3 {
            let v = k + 2 * r;
            want[2 * (r + 3 * k)] = 10.0 * v as f32;
            want[2 * (r + 3 * k) + 1] = 10.0 * v as f32 + 1.0;
        }
    }
    assert_eq!(row, want);

    // Without the head geometry the fold cannot be applied, and a non-`ssm_out` weight ignores
    // it.
    assert!(fold.input_rotation("blk.0.ssm_out.weight", 12, None).is_err());
    let plain = fold.input_rotation("output.weight", 8, Some((6, 2))).unwrap().unwrap();
    assert!(plain.perm.is_none());
}

#[test]
fn coverage_names_the_weight_that_was_never_transformed() {
    let fold = identity();
    let mut claimed: Vec<String> = ["output.weight", "blk.0.ffn_up.weight", "token_embd.weight"]
        .into_iter()
        .map(String::from)
        .collect();
    let err = fold.verify_covered(&claimed).unwrap_err().message();
    assert!(err.contains("blk.0.ssm_out.weight"), "{err}");
    claimed.push("blk.0.ssm_out.weight".into());
    fold.verify_covered(&claimed).unwrap();
}

#[test]
fn the_ledger_records_claims_and_refuses_a_split_shared_input() {
    let fold = explicit();
    let mut ledger = FoldLedger::new(Some(&fold));
    assert!(ledger.inverse("token_embd.weight", 8).unwrap().is_some());
    assert!(ledger.input("output.weight", 8, None).unwrap().is_some());
    // `ffn_up` is folded, `ffn_gate` is not: one input, two bases.
    let err = ledger
        .shared_input(&["blk.0.ffn_gate.weight", "blk.0.ffn_up.weight"], 8)
        .unwrap_err()
        .message();
    assert!(err.contains("not folded alike"), "{err}");
    // Not everything is claimed yet.
    let err = ledger.finish().unwrap_err().message();
    assert!(err.contains("blk.0.ssm_out.weight"), "{err}");
    ledger.input("blk.0.ssm_out.weight", 12, Some((6, 2))).unwrap();
    ledger.finish().unwrap();

    // No fold: every lookup is `None` and `finish` passes.
    let mut none = FoldLedger::new(None);
    assert!(none.input("output.weight", 8, None).unwrap().is_none());
    assert!(none.inverse("token_embd.weight", 8).unwrap().is_none());
    none.finish().unwrap();
}

#[test]
fn two_sites_share_a_rotation_only_when_it_is_the_same_one() {
    let fold = explicit();
    let a = fold.input_rotation("output.weight", 8, None).unwrap().unwrap();
    let b = fold.input_rotation("blk.0.ffn_up.weight", 8, None).unwrap().unwrap();
    let c = fold.input_rotation("blk.0.ffn_up.weight", 12, None).unwrap().unwrap();
    assert!(a.same_as(&b));
    assert!(!a.same_as(&c));
}

#[test]
fn each_refusal_is_its_own() {
    let with = |at: usize, value: GgufValue| {
        let mut m = metadata("explicit");
        let key = m[at].0.clone();
        m[at] = (key, value);
        HadamardFold::from_metadata(&m).err().unwrap()
    };
    assert!(matches!(with(0, GgufValue::U32(2)), FoldError::Version(2)));
    assert!(matches!(with(1, GgufValue::U32(6)), FoldError::BlockSize(6)));
    assert!(matches!(with(1, GgufValue::String("4".into())), FoldError::Missing(_)));
    assert!(matches!(with(2, GgufValue::String("dct".into())), FoldError::Transform(_)));
    assert!(matches!(with(3, GgufValue::String("output".into())), FoldError::Axis(_)));
    assert!(matches!(with(4, GgufValue::String("hashed".into())), FoldError::SignMode(_)));
    assert!(matches!(with(5, strings(&[])), FoldError::NoWeightNames));
    assert!(matches!(with(5, strings(&["a", "a"])), FoldError::RepeatedName(_)));
    assert!(matches!(with(6, strings(&["output.weight"])), FoldError::BothWays(_)));
    assert!(matches!(with(8, ints(&[])), FoldError::NoSignWidths));
    assert!(with(0, GgufValue::U32(2)).message().contains('2'));
}

#[test]
fn regrouping_is_undone_by_regrouping_the_other_way() {
    let x: Vec<u32> = (0..24).collect();
    let mut row = x.clone();
    let mut scratch = Vec::new();
    permute_tiled_to_grouped(&mut row, 2, 3, 4, &mut scratch);
    assert_ne!(row, x);
    permute_tiled_to_grouped(&mut row, 2, 4, 3, &mut scratch);
    assert_eq!(row, x);
}

#[test]
fn a_rotation_keeps_its_signs_without_its_permutation() {
    let r = Rotation { block_size: 4, signs: Some(vec![1, -1]), perm: Some((1, 2, 3)) };
    assert!(r.has_permutation());
    let plain = r.without_permutation();
    assert!(!plain.has_permutation());
    assert_eq!(plain.signs(), Some(&vec![1i8, -1]));
    assert_eq!(plain.block_size(), 4);
    assert!(!plain.same_as(&r));
}

#[test]
fn declared_names_come_forward_first() {
    let fold = identity();
    assert_eq!(
        fold.names(),
        vec!["output.weight", "blk.0.ffn_up.weight", "blk.0.ssm_out.weight", "token_embd.weight"]
    );
    let spec = Spec::parse(&metadata("explicit")).unwrap().unwrap();
    assert_eq!(spec.sign_widths, vec![8, 12]);
    assert!(spec.explicit_signs);
    assert!(spec.gdn_v_grouped);
}

#[test]
fn metadata_values_are_read_by_what_they_hold() {
    let m = vec![
        kv("n", GgufValue::I16(7)),
        kv("neg", GgufValue::I64(-1)),
        kv("s", GgufValue::String("x".into())),
        kv("list", strings(&["a", "b"])),
        kv("ints", ints(&[3, -4])),
        kv("mixed", GgufValue::Array(vec![GgufValue::U8(1), GgufValue::String("y".into())])),
    ];
    assert_eq!(scalar_u64(&m, "n"), Some(7));
    assert_eq!(scalar_u64(&m, "neg"), None);
    assert_eq!(scalar_u64(&m, "absent"), None);
    assert_eq!(string(&m, "s").as_deref(), Some("x"));
    assert_eq!(string(&m, "n"), None);
    assert_eq!(array_strings(&m, "list"), Some(vec!["a".to_string(), "b".to_string()]));
    assert_eq!(array_strings(&m, "mixed"), None);
    assert_eq!(array_i64(&m, "ints"), Some(vec![3, -4]));
    assert_eq!(GgufValue::U64(u64::MAX).as_i64(), Some(-1));
    assert_eq!(GgufValue::F32(0).as_i64(), None);
    assert_eq!(GgufValue::I8(-5).as_i64(), Some(-5));
}

#[test]
fn signs_are_refused_exactly_where_they_do_not_fit() {
    let with = |widths: &[i64], values: Option<&[i64]>| {
        let mut m = metadata("explicit");
        m[8].1 = ints(widths);
        match values {
            Some(values) => m[9].1 = ints(values),
            None => m.truncate(9),
        }
        // The header alone never says no to the values.
        assert!(HadamardFold::header_support(&m).is_none());
        HadamardFold::from_metadata(&m)
    };
    assert!(with(&[4, 8], Some(&[1; 12])).is_ok());
    assert!(matches!(with(&[4], None).err().unwrap(), FoldError::Missing(_)));
    assert!(with(&[4, 8], Some(&[1; 11])).is_err());
    assert!(with(&[4, 8], Some(&[1; 13])).is_err());
    assert!(with(&[4], Some(&[1, -1, 0, 1])).is_err());
    assert!(with(&[4, 4], Some(&[1; 8])).is_err());
}
