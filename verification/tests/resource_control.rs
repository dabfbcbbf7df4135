use sovereign_os::resource_control::{
    canonical_profiles, validate_profiles, ResourceError, ResourceProfile, UnitKind,
};

#[test]
fn five_canonical_boundaries_in_order() {
    let p = canonical_profiles();
    let units: Vec<_> = p.iter().map(|x| x.unit.as_str()).collect();
    assert_eq!(units, ["oracle.service", "scout.slice", "sandbox.slice", "eval.slice", "gateway.service"]);
}

#[test]
fn all_canonical_profiles_validate() {
    validate_profiles(&canonical_profiles()).expect("canonical set valid");
}

#[test]
fn priority_ordering_matches_operator_intent() {
    let p = canonical_profiles();
    let w = |u: &str| p.iter().find(|x| x.unit == u).unwrap().cpu_weight;
    assert!(w("oracle.service") > w("scout.slice"));
    assert!(w("scout.slice") > w("eval.slice"));
    assert_eq!(w("eval.slice"), 10, "low priority background");
}

#[test]
fn kill_policy_is_consistent() {
    let p = canonical_profiles();
    for prof in &p {
        assert!(!(prof.always_on && prof.kill_restartable), "{}", prof.unit);
    }
    let scout = p.iter().find(|x| x.unit == "scout.slice").unwrap();
    assert!(scout.kill_restartable && !scout.always_on);
    let gw = p.iter().find(|x| x.unit == "gateway.service").unwrap();
    assert!(gw.always_on && !gw.kill_restartable);
}

#[test]
fn sandbox_is_strictest() {
    let p = canonical_profiles();
    let sandbox = p.iter().find(|x| x.unit == "sandbox.slice").unwrap();
    assert_eq!(sandbox.memory_max_mb, Some(2048));
    assert!(sandbox.runtime_max_secs.is_some(), "sandbox has a time limit");
}

#[test]
fn systemd_dropin_renders_directives() {
    let p = canonical_profiles();
    let oracle = p.iter().find(|x| x.unit == "oracle.service").unwrap();
    let d = oracle.to_systemd_dropin();
    assert!(d.contains("[Service]"));
    assert!(d.contains("CPUWeight=1000"));
    assert!(d.contains("IOWeight=500"));
    assert!(d.contains("MemoryMax=infinity"));
    assert!(d.contains("MemoryLow=8192M"));
    assert!(d.contains("TasksMax=64"));
    assert!(d.starts_with("# E0429 oracle.service"));

    let sandbox = p.iter().find(|x| x.unit == "sandbox.slice").unwrap();
    let ds = sandbox.to_systemd_dropin();
    assert!(ds.contains("[Slice]"));
    assert!(ds.contains("MemoryMax=2048M"));
    assert!(ds.contains("RuntimeMaxSec=900"));
}

#[test]
fn dropin_is_exact() {
    let p = canonical_profiles();
    assert_eq!(
        p[2].to_systemd_dropin(),
        "# E0429 sandbox.slice: strict memory / IO / network / time limits\n[Slice]\nCPUWeight=50\nIOWeight=20\nMemoryMax=2048M\nTasksMax=64\nRuntimeMaxSec=900\n"
    );
    assert_eq!(
        p[4].to_systemd_dropin(),
        "# E0429 gateway.service: protected always-on, small trusted surface\n[Service]\nCPUWeight=200\nIOWeight=200\nMemoryMax=1024M\nMemoryLow=256M\nTasksMax=32\n"
    );
}

#[test]
fn validate_rejects_bad_weight_and_contradictions() {
    let mut bad = canonical_profiles()[0].clone();
    bad.cpu_weight = 0;
    assert!(matches!(bad.validate(), Err(ResourceError::WeightOutOfRange { field: "CPUWeight", value: 0 })));
    let mut contradiction = canonical_profiles()[1].clone();
    contradiction.always_on = true;
    assert!(matches!(contradiction.validate(), Err(ResourceError::KillPolicyContradiction)));
    let mut membad = canonical_profiles()[2].clone();
    membad.memory_low_mb = Some(9999);
    assert!(matches!(membad.validate(), Err(ResourceError::MemoryLowAboveMax { low: 9999, max: 2048 })));
}

#[test]
fn io_weight_is_checked_too() {
    let mut bad = canonical_profiles()[3].clone();
    bad.io_weight = 10001;
    assert_eq!(bad.validate(), Err(ResourceError::WeightOutOfRange { field: "IOWeight", value: 10001 }));
    assert_eq!(UnitKind::Slice.section(), "Slice");
    assert_eq!(UnitKind::Service.section(), "Service");
}

#[test]
fn validate_profiles_rejects_duplicate_unit() {
    let mut p = canonical_profiles();
    p[2].unit = p[0].unit.clone();
    assert!(matches!(validate_profiles(&p), Err(ResourceError::DuplicateUnit(_))));
}

#[test]
fn validate_profiles_reports_first_fault_in_order() {
    let mut p = canonical_profiles();
    p[3].unit = "scout.slice".into();
    p[4].cpu_weight = 0;
    assert_eq!(validate_profiles(&p), Err(ResourceError::DuplicateUnit("scout.slice".into())));
    let custom = ResourceProfile {
        unit: "x.slice".into(),
        kind: UnitKind::Slice,
        cpu_weight: 1,
        io_weight: 10000,
        memory_max_mb: None,
        memory_low_mb: Some(4),
        tasks_max: None,
        runtime_max_secs: None,
        always_on: false,
        kill_restartable: false,
        rationale: String::new(),
    };
    assert_eq!(custom.validate(), Ok(()));
    assert_eq!(custom.to_systemd_dropin(), "# \n[Slice]\nCPUWeight=1\nIOWeight=10000\nMemoryMax=infinity\nMemoryLow=4M\n");
}
