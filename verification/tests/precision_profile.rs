use sovereign_os::precision_profile::{Precision, PrecisionProfile, Tiers};

#[test]
fn f32_default_is_a_full_opt_out() {
    let p = PrecisionProfile::all_f32();
    assert_eq!(p.plan(4), vec![Precision::F32; 4]);
    assert!(!p.quantizes());
    assert!(!p.tiers.any());
}

#[test]
fn default_trait_is_the_opt_out() {
    assert_eq!(PrecisionProfile::default(), PrecisionProfile::all_f32());
}

#[test]
fn mixed_preset_spans_four_precisions_in_order() {
    let p = PrecisionProfile::mixed();
    assert_eq!(p.plan(4), vec![Precision::F32, Precision::Ternary, Precision::Nvfp4, Precision::Int8]);
    assert_eq!(p.resolve(7), Precision::Int8);
    assert!(p.quantizes());
    assert_eq!(p.tiers, Tiers::all());
}

#[test]
fn uniform_presets_pick_one_precision_everywhere() {
    assert_eq!(PrecisionProfile::all_ternary().plan(3), vec![Precision::Ternary; 3]);
    assert_eq!(PrecisionProfile::int8_hot().plan(3), vec![Precision::Int8; 3]);
    assert!(!PrecisionProfile::uniform(Precision::F32).tiers.any());
    assert!(PrecisionProfile::uniform(Precision::Nvfp4).tiers.any());
}

#[test]
fn opt_in_out_is_fluent_and_layer_overrides_win() {
    let p = PrecisionProfile::all_f32().with_layer(2, Precision::Int8);
    assert_eq!(p.plan(4), vec![Precision::F32, Precision::F32, Precision::Int8, Precision::F32]);
    assert!(p.quantizes());
    let q = PrecisionProfile::all_ternary().with_layer(1, Precision::F32);
    assert_eq!(q.resolve(0), Precision::Ternary);
    assert_eq!(q.resolve(1), Precision::F32);
}

#[test]
fn high_precision_projections_are_tracked() {
    let p = PrecisionProfile::mixed()
        .with_high_precision("lm_head".to_string())
        .with_high_precision("embed.out".to_string());
    assert!(p.is_high_precision("lm_head"));
    assert!(!p.is_high_precision("layer3.gate"));
    assert_eq!(p.high_precision_refs(), vec!["lm_head", "embed.out"]);
}

#[test]
fn tiers_opt_in_out() {
    let p = PrecisionProfile::all_f32().with_tiers(Tiers { t1_quant_dot: true, ..Tiers::none() });
    assert!(p.tiers.t1_quant_dot);
    assert!(!p.tiers.t2_bitwise_attn);
    assert!(p.tiers.any());
}

#[test]
fn preset_names_and_all_f32_overrides() {
    assert_eq!(PrecisionProfile::uniform(Precision::Nvfp4).name, "uniform-nvfp4");
    assert_eq!(PrecisionProfile::int8_hot().name, "int8-hot");
    let p = PrecisionProfile::all_f32().with_layer(0, Precision::F32).with_layer(9, Precision::F32);
    assert!(!p.quantizes());
    assert_eq!(p.resolve(9), Precision::F32);
}
