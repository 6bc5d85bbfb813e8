use std::collections::HashMap;

use lau_kintsugi::{ArtifactHistory, Binary64, Break, BreakId, BreakType, GoldenTrail, KintsugiRegistry, Repair};

fn num(x: f64) -> Binary64 {
    Binary64::from_bits(x.to_bits())
}

fn value(x: Binary64) -> f64 {
    f64::from_bits(x.to_bits())
}

fn brk(id: &str, bt: BreakType, desc: &str, sev: f64) -> Break {
    Break {
        id: BreakId(id.to_string()),
        break_type: bt,
        description: desc.to_string(),
        tick_occurred: 1,
        context: HashMap::new(),
        severity: num(sev),
    }
}

fn samples() -> Vec<f64> {
    vec![
        0.0,
        -0.0,
        1.0,
        -1.0,
        0.7,
        0.8,
        0.75,
        1.5,
        -0.3,
        f64::MIN_POSITIVE,
        -f64::MIN_POSITIVE,
        5e-324,
        -5e-324,
        f64::MAX,
        f64::MIN,
        f64::INFINITY,
        f64::NEG_INFINITY,
        f64::NAN,
        -f64::NAN,
        f64::from_bits(0x7FF0_0000_0000_0001),
        f64::from_bits(0x3FE6_6666_6666_6667),
        f64::from_bits(0x3FE6_6666_6666_6665),
    ]
}

#[test]
fn binary64_comparisons_match_f64() {
    for &a in &samples() {
        for &b in &samples() {
            assert_eq!(num(a).lt(&num(b)), a < b, "{a} < {b}");
            assert_eq!(num(a).gt(&num(b)), a > b, "{a} > {b}");
        }
        assert_eq!(num(a).is_nan(), a.is_nan());
    }
}

#[test]
fn binary64_clamp_matches_f64_clamp() {
    for &a in &samples() {
        assert_eq!(num(a).clamp_unit().to_bits(), a.clamp(0.0, 1.0).to_bits(), "clamp {a}");
    }
}

#[test]
fn critical_and_golden_thresholds() {
    let just_above_eight_tenths = f64::from_bits(0.8f64.to_bits() + 1);
    assert!(brk("a", BreakType::RuntimeCrash, "x", just_above_eight_tenths).is_critical());
    assert!(!brk("a", BreakType::RuntimeCrash, "x", f64::NAN).is_critical());
    assert!(brk("a", BreakType::RuntimeCrash, "x", f64::INFINITY).is_critical());
    let mut r = Repair {
        break_id: BreakId("b".into()),
        method: "m".into(),
        gold_content: num(0.7),
        repaired_tick: 0,
        repairer: "r".into(),
        insight: "i".into(),
        before_state: "b".into(),
        after_state: "a".into(),
    };
    assert!(!r.is_golden());
    r.gold_content = num(0.75);
    assert!(r.is_golden());
}

#[test]
fn recording_an_identifier_again_replaces_the_break_in_place() {
    let mut trail = GoldenTrail::new();
    trail.record_break(brk("b1", BreakType::CompilationError, "first", 0.1));
    trail.record_break(brk("b2", BreakType::RuntimeCrash, "second", 0.2));
    let id = trail.record_break(brk("b1", BreakType::NetworkTimeout, "again", 0.3));
    assert_eq!(id.0, "b1");
    assert_eq!(trail.breaks().len(), 2);
    assert_eq!(trail.breaks()[0].description, "again");
    assert_eq!(trail.get_break(&id).unwrap().break_type, BreakType::NetworkTimeout);
    assert_eq!(trail.breaks()[1].description, "second");
}

#[test]
fn repair_clamps_gold_and_copies_its_fields() {
    let mut trail = GoldenTrail::new();
    let a = trail.record_break(brk("a", BreakType::CompilationError, "x", 0.1));
    let b = trail.record_break(brk("b", BreakType::CompilationError, "y", 0.1));
    let ra = trail.repair(&a, "patch", num(1.5), "me", "lesson", "before", "after").unwrap();
    assert_eq!(value(ra.gold_content), 1.0);
    assert_eq!(ra.repaired_tick, 0);
    assert_eq!(ra.break_id.0, "a");
    assert_eq!(ra.repairer, "me");
    assert_eq!(ra.insight, "lesson");
    assert_eq!(ra.before_state, "before");
    assert_eq!(ra.after_state, "after");
    let rb = trail.repair(&b, "patch", num(-0.3), "me", "-", "-", "-").unwrap();
    assert_eq!(value(rb.gold_content), 0.0);
    assert_eq!(trail.repairs().len(), 2);
    assert_eq!(trail.repairs()[0].break_id.0, "a");
}

#[test]
fn failed_repair_leaves_trail_unchanged() {
    let mut trail = GoldenTrail::new();
    let a = trail.record_break(brk("a", BreakType::CompilationError, "x", 0.1));
    trail.repair(&a, "patch", num(0.5), "me", "-", "-", "-");
    assert!(trail.repair(&a, "again", num(0.9), "you", "-", "-", "-").is_none());
    assert!(trail.repair(&BreakId("zz".into()), "m", num(0.9), "you", "-", "-", "-").is_none());
    assert_eq!(trail.repairs().len(), 1);
    assert_eq!(trail.repairs()[0].method, "patch");
    assert_eq!(trail.breaks().len(), 1);
}

#[test]
fn frequency_has_no_entry_for_absent_categories_and_counts_every_break() {
    let mut trail = GoldenTrail::new();
    assert!(trail.break_frequency().is_empty());
    trail.record_break(brk("a", BreakType::SkillFailure, "x", 0.1));
    trail.record_break(brk("b", BreakType::SkillFailure, "x", 0.1));
    trail.record_break(brk("c", BreakType::AgentFailure, "x", 0.1));
    trail.record_break(brk("a", BreakType::RoomDissolution, "x", 0.1));
    let f = trail.break_frequency();
    assert!(f.get(&BreakType::BuildCollapse).is_none());
    assert_eq!(f.len(), 3);
    let total: usize = [
        BreakType::CompilationError,
        BreakType::RuntimeCrash,
        BreakType::ConservationViolation,
        BreakType::AgentFailure,
        BreakType::BuildCollapse,
        BreakType::RoomDissolution,
        BreakType::SkillFailure,
        BreakType::NetworkTimeout,
    ]
    .iter()
    .map(|bt| f.get(bt).copied().unwrap_or(0))
    .sum();
    assert_eq!(total, trail.breaks().len());
    assert_eq!(*f.get(&BreakType::SkillFailure).unwrap(), 1);
}

#[test]
fn unrepaired_and_repairs_partition_breaks() {
    let mut trail = GoldenTrail::new();
    let ids: Vec<BreakId> = (0..5)
        .map(|i| trail.record_break(brk(&format!("b{i}"), BreakType::RuntimeCrash, "x", 0.5)))
        .collect();
    trail.repair(&ids[1], "m", num(0.1), "r", "-", "-", "-");
    trail.repair(&ids[3], "m", num(0.1), "r", "-", "-", "-");
    let ur = trail.unrepaired();
    assert_eq!(ur.len() + trail.repairs().len(), trail.breaks().len());
    let names: Vec<&str> = ur.iter().map(|b| b.id.0.as_str()).collect();
    assert_eq!(names, vec!["b0", "b2", "b4"]);
}

#[test]
fn most_insightful_takes_the_last_of_equal_maxima() {
    let mut trail = GoldenTrail::new();
    let a = trail.record_break(brk("a", BreakType::RuntimeCrash, "x", 0.5));
    let b = trail.record_break(brk("b", BreakType::RuntimeCrash, "x", 0.5));
    let c = trail.record_break(brk("c", BreakType::RuntimeCrash, "x", 0.5));
    trail.repair(&a, "first", num(0.9), "r", "-", "-", "-");
    trail.repair(&b, "second", num(0.9), "r", "-", "-", "-");
    trail.repair(&c, "third", num(0.4), "r", "-", "-", "-");
    assert_eq!(trail.most_insightful_repair().unwrap().method, "second");
}

#[test]
fn current_trail_mut_changes_the_latest_trail() {
    let mut h = ArtifactHistory::new("svc");
    assert!(h.current_trail_mut().is_none());
    h.new_iteration();
    h.new_iteration();
    let t = h.current_trail_mut().unwrap();
    t.record_break(brk("x", BreakType::BuildCollapse, "boom", 0.9));
    assert_eq!(h.trails()[0].breaks().len(), 0);
    assert_eq!(h.trails()[1].breaks().len(), 1);
    assert_eq!(h.current_trail().unwrap().breaks().len(), 1);
}

#[test]
fn history_counts_repairs_over_iterations() {
    let mut h = ArtifactHistory::new("svc");
    let t = h.new_iteration();
    let id = t.record_break(brk("a", BreakType::BuildCollapse, "boom", 0.9));
    t.repair(&id, "m", num(0.5), "r", "-", "-", "-");
    let t = h.new_iteration();
    t.record_break(brk("b", BreakType::BuildCollapse, "boom", 0.9));
    assert_eq!(h.total_breaks(), 2);
    assert_eq!(h.total_repairs(), 1);
}

#[test]
fn registry_repairs_only_on_the_latest_trail() {
    let mut reg = KintsugiRegistry::default();
    reg.register("svc");
    let first = reg.record_break("svc", brk("a", BreakType::RuntimeCrash, "x", 0.5)).unwrap();
    reg.record_break("svc", brk("b", BreakType::RuntimeCrash, "y", 0.5)).unwrap();
    assert_eq!(reg.get("svc").unwrap().iteration(), 2);
    assert!(!reg.repair("svc", &first, "m", num(0.5), "r", "-", "-", "-"));
    assert!(reg.repair("svc", &BreakId("b".into()), "m", num(0.5), "r", "-", "-", "-"));
    assert!(!reg.repair("svc", &BreakId("b".into()), "m", num(0.5), "r", "-", "-", "-"));
    assert_eq!(reg.total_breaks(), 2);
    assert_eq!(reg.total_repairs(), 1);
}

#[test]
fn registry_repair_without_trail_fails_and_unregistered_break_changes_nothing() {
    let mut reg = KintsugiRegistry::new();
    reg.register("svc");
    assert!(!reg.repair("svc", &BreakId("a".into()), "m", num(0.5), "r", "-", "-", "-"));
    assert!(reg.record_break("other", brk("a", BreakType::RuntimeCrash, "x", 0.5)).is_none());
    assert_eq!(reg.len(), 1);
    assert_eq!(reg.get("svc").unwrap().trails().len(), 0);
    assert!(reg.get("other").is_none());
}

#[test]
fn trail_from_parts_checks_identifiers() {
    let repair_of = |id: &str| Repair {
        break_id: BreakId(id.into()),
        method: "m".into(),
        gold_content: num(0.5),
        repaired_tick: 3,
        repairer: "r".into(),
        insight: "i".into(),
        before_state: "b".into(),
        after_state: "a".into(),
    };
    let ok = GoldenTrail::from_parts(
        vec![brk("a", BreakType::RuntimeCrash, "x", 0.5), brk("b", BreakType::RuntimeCrash, "y", 0.5)],
        vec![repair_of("b")],
    );
    let ok = ok.unwrap();
    assert_eq!(ok.unrepaired().len(), 1);
    assert_eq!(ok.get_repair(&BreakId("b".into())).unwrap().repaired_tick, 3);
    assert!(GoldenTrail::from_parts(
        vec![brk("a", BreakType::RuntimeCrash, "x", 0.5), brk("a", BreakType::RuntimeCrash, "y", 0.5)],
        vec![],
    )
    .is_none());
    assert!(GoldenTrail::from_parts(vec![brk("a", BreakType::RuntimeCrash, "x", 0.5)], vec![repair_of("c")]).is_none());
    assert!(GoldenTrail::from_parts(
        vec![brk("a", BreakType::RuntimeCrash, "x", 0.5)],
        vec![repair_of("a"), repair_of("a")],
    )
    .is_none());
}

#[test]
fn registry_from_histories_rejects_duplicate_artifacts() {
    let h = |id: &str| ArtifactHistory::from_parts(id, vec![GoldenTrail::default()], 1);
    let reg = KintsugiRegistry::from_histories(vec![h("a"), h("b")]).unwrap();
    assert_eq!(reg.len(), 2);
    assert_eq!(reg.get("b").unwrap().iteration(), 1);
    assert!(KintsugiRegistry::from_histories(vec![h("a"), h("a")]).is_none());
}
