use std::collections::HashMap;

use lau_kintsugi::{ArtifactHistory, Binary64, Break, BreakId, BreakType, GoldenTrail, KintsugiRegistry, Repair};

// -- Helpers -----------------------------------------------------------

fn num(x: f64) -> Binary64 {
    Binary64::from_bits(x.to_bits())
}

fn value(x: Binary64) -> f64 {
    f64::from_bits(x.to_bits())
}

fn make_break(id: &str, bt: BreakType, desc: &str, tick: u64, sev: f64) -> Break {
    Break {
        id: BreakId(id.to_string()),
        break_type: bt,
        description: desc.to_string(),
        tick_occurred: tick,
        context: HashMap::new(),
        severity: num(sev),
    }
}

fn make_break_with_ctx(
    id: &str,
    bt: BreakType,
    desc: &str,
    tick: u64,
    sev: f64,
    ctx: HashMap<String, String>,
) -> Break {
    Break {
        id: BreakId(id.to_string()),
        break_type: bt,
        description: desc.to_string(),
        tick_occurred: tick,
        context: ctx,
        severity: num(sev),
    }
}

// -- BreakId -----------------------------------------------------------

#[test]
fn break_id_newtype() {
    let id = BreakId("build-42".into());
    assert_eq!(id.0, "build-42");
    assert_eq!(id.to_string(), "build-42");
}

#[test]
fn break_id_clone_eq_hash() {
    let a = BreakId("x".into());
    let b = BreakId("x".into());
    let c = BreakId("y".into());
    assert_eq!(a, b);
    assert_ne!(a, c);
    assert_eq!(a.clone(), a);
}

// -- BreakType ---------------------------------------------------------

#[test]
fn break_type_display() {
    assert_eq!(BreakType::CompilationError.to_string(), "CompilationError");
    assert_eq!(BreakType::RuntimeCrash.to_string(), "RuntimeCrash");
    assert_eq!(BreakType::ConservationViolation.to_string(), "ConservationViolation");
    assert_eq!(BreakType::AgentFailure.to_string(), "AgentFailure");
    assert_eq!(BreakType::BuildCollapse.to_string(), "BuildCollapse");
    assert_eq!(BreakType::RoomDissolution.to_string(), "RoomDissolution");
    assert_eq!(BreakType::SkillFailure.to_string(), "SkillFailure");
    assert_eq!(BreakType::NetworkTimeout.to_string(), "NetworkTimeout");
}

// -- Break -------------------------------------------------------------

#[test]
fn break_is_critical() {
    let b = make_break("b1", BreakType::BuildCollapse, "everything failed", 1, 0.9);
    assert!(b.is_critical());
}

#[test]
fn break_is_not_critical() {
    let b = make_break("b2", BreakType::NetworkTimeout, "minor timeout", 2, 0.3);
    assert!(!b.is_critical());
}

#[test]
fn break_at_boundary() {
    let b = make_break("b3", BreakType::SkillFailure, "boundary", 3, 0.8);
    assert!(!b.is_critical()); // 0.8 is NOT > 0.8
}

#[test]
fn break_with_context() {
    let mut ctx = HashMap::new();
    ctx.insert("file".into(), "src/main.rs".into());
    let b = make_break_with_ctx("b4", BreakType::CompilationError, "oops", 5, 0.5, ctx);
    assert_eq!(b.context.get("file").unwrap(), "src/main.rs");
}

// -- Repair ------------------------------------------------------------

#[test]
fn repair_is_golden() {
    let r = Repair {
        break_id: BreakId("b1".into()),
        method: "hotpatch".into(),
        gold_content: num(0.85),
        repaired_tick: 10,
        repairer: "plato-agent".into(),
        insight: "learned to validate before build".into(),
        before_state: "broken".into(),
        after_state: "fixed".into(),
    };
    assert!(r.is_golden());
}

#[test]
fn repair_not_golden() {
    let r = Repair {
        break_id: BreakId("b2".into()),
        method: "reboot".into(),
        gold_content: num(0.3),
        repaired_tick: 10,
        repairer: "admin".into(),
        insight: "not much".into(),
        before_state: "hung".into(),
        after_state: "ok".into(),
    };
    assert!(!r.is_golden());
}

// -- GoldenTrail -------------------------------------------------------

#[test]
fn trail_record_break() {
    let mut trail = GoldenTrail::new();
    let id = trail.record_break(make_break("b1", BreakType::RuntimeCrash, "panic", 1, 0.9));
    assert_eq!(id.0, "b1");
    assert_eq!(trail.breaks().len(), 1);
}

#[test]
fn trail_repair() {
    let mut trail = GoldenTrail::new();
    let id = trail.record_break(make_break("b1", BreakType::RuntimeCrash, "panic", 1, 0.9));
    let repair = trail.repair(&id, "rollback", num(0.8), "repairer-x", "learned a lot", "broken", "fixed");
    assert!(repair.is_some());
    assert_eq!(repair.unwrap().method, "rollback");
    assert!(repair.unwrap().is_golden());
}

#[test]
fn trail_repair_nonexistent() {
    let mut trail = GoldenTrail::new();
    let r = trail.repair(&BreakId("ghost".into()), "x", num(0.5), "me", "none", "-", "-");
    assert!(r.is_none());
}

#[test]
fn trail_repair_duplicate() {
    let mut trail = GoldenTrail::new();
    let id = trail.record_break(make_break("b1", BreakType::RuntimeCrash, "x", 1, 0.5));
    let first = trail.repair(&id, "a", num(0.3), "me", "x", "-", "-");
    assert!(first.is_some());
    let second = trail.repair(&id, "b", num(0.4), "me", "y", "-", "-");
    assert!(second.is_none());
}

#[test]
fn trail_get_break() {
    let mut trail = GoldenTrail::new();
    let id = trail.record_break(make_break("b1", BreakType::AgentFailure, "crashed", 7, 0.6));
    let found = trail.get_break(&id);
    assert!(found.is_some());
    assert_eq!(found.unwrap().tick_occurred, 7);
}

#[test]
fn trail_get_break_missing() {
    let trail = GoldenTrail::new();
    assert!(trail.get_break(&BreakId("nope".into())).is_none());
}

#[test]
fn trail_get_repair() {
    let mut trail = GoldenTrail::new();
    let id = trail.record_break(make_break("b1", BreakType::BuildCollapse, "boom", 2, 0.9));
    trail.repair(&id, "revert", num(0.6), "bot", "fixed", "broken", "ok");
    let r = trail.get_repair(&id);
    assert!(r.is_some());
}

#[test]
fn trail_unrepaired() {
    let mut trail = GoldenTrail::new();
    trail.record_break(make_break("b1", BreakType::CompilationError, "err1", 1, 0.3));
    let id2 = trail.record_break(make_break("b2", BreakType::SkillFailure, "err2", 2, 0.5));
    trail.repair(&id2, "retry", num(0.2), "me", "trivial", "-", "-");
    let ur = trail.unrepaired();
    assert_eq!(ur.len(), 1);
    assert_eq!(ur[0].description, "err1");
}

#[test]
fn trail_golden_repairs() {
    let mut trail = GoldenTrail::new();
    let id1 = trail.record_break(make_break("b1", BreakType::CompilationError, "x", 1, 0.3));
    let id2 = trail.record_break(make_break("b2", BreakType::RuntimeCrash, "y", 2, 0.9));
    trail.repair(&id1, "patch", num(0.8), "a", "good insight", "x", "y");
    trail.repair(&id2, "restart", num(0.2), "b", "bad", "y", "z");
    let golden = trail.golden_repairs();
    assert_eq!(golden.len(), 1);
    assert_eq!(golden[0].method, "patch");
}

#[test]
fn trail_break_frequency() {
    let mut trail = GoldenTrail::new();
    trail.record_break(make_break("b1", BreakType::CompilationError, "x", 1, 0.1));
    trail.record_break(make_break("b2", BreakType::CompilationError, "y", 2, 0.2));
    trail.record_break(make_break("b3", BreakType::NetworkTimeout, "z", 3, 0.3));
    let freq = trail.break_frequency();
    assert_eq!(*freq.get(&BreakType::CompilationError).unwrap(), 2);
    assert_eq!(*freq.get(&BreakType::NetworkTimeout).unwrap(), 1);
}

#[test]
fn trail_most_insightful_repair() {
    let mut trail = GoldenTrail::new();
    let id1 = trail.record_break(make_break("b1", BreakType::CompilationError, "x", 1, 0.3));
    let id2 = trail.record_break(make_break("b2", BreakType::RuntimeCrash, "y", 2, 0.9));
    trail.repair(&id1, "a", num(0.2), "x", "-", "-", "-");
    trail.repair(&id2, "b", num(0.9), "y", "-", "-", "-");
    let best = trail.most_insightful_repair();
    assert!(best.is_some());
    assert!((value(best.unwrap().gold_content) - 0.9).abs() < 1e-10);
}

// -- ArtifactHistory ---------------------------------------------------

#[test]
fn artifact_new() {
    let h = ArtifactHistory::new("badge-service");
    assert_eq!(h.artifact_id(), "badge-service");
    assert_eq!(h.iteration(), 0);
}

#[test]
fn artifact_new_iteration() {
    let mut h = ArtifactHistory::new("svc");
    h.new_iteration();
    assert_eq!(h.iteration(), 1);
    assert_eq!(h.trails().len(), 1);
}

#[test]
fn artifact_current_trail() {
    let mut h = ArtifactHistory::new("svc");
    assert!(h.current_trail().is_none());
    h.new_iteration();
    assert!(h.current_trail().is_some());
}

#[test]
fn artifact_total_breaks() {
    let mut h = ArtifactHistory::new("svc");
    let t = h.new_iteration();
    t.record_break(make_break("b1", BreakType::CompilationError, "x", 1, 0.3));
    t.record_break(make_break("b2", BreakType::NetworkTimeout, "y", 2, 0.5));
    assert_eq!(h.total_breaks(), 2);
}

#[test]
fn artifact_multi_iteration() {
    let mut h = ArtifactHistory::new("multi-svc");
    let t1 = h.new_iteration();
    let id1 = t1.record_break(make_break("b1", BreakType::NetworkTimeout, "timeout", 1, 0.4));
    t1.repair(&id1, "retry", num(0.2), "bot", "added retry", "down", "up");
    let t2 = h.new_iteration();
    let id2 = t2.record_break(make_break("b2", BreakType::RuntimeCrash, "panic", 2, 0.8));
    t2.repair(&id2, "hotfix", num(0.7), "dev", "fast fix", "crashed", "running");
    assert_eq!(h.total_breaks(), 2);
    assert_eq!(h.iteration(), 2);
}

// -- KintsugiRegistry ---------------------------------------------------

#[test]
fn registry_register() {
    let mut reg = KintsugiRegistry::new();
    reg.register("svc-a");
    assert!(reg.get("svc-a").is_some());
}

#[test]
fn registry_register_duplicate() {
    let mut reg = KintsugiRegistry::new();
    reg.register("svc");
    reg.register("svc");
    assert_eq!(reg.len(), 1);
}

#[test]
fn registry_record_break() {
    let mut reg = KintsugiRegistry::new();
    reg.register("svc");
    let id = reg.record_break("svc", make_break("b1", BreakType::CompilationError, "err", 1, 0.5));
    assert!(id.is_some());
    assert_eq!(id.unwrap().0, "b1");
}

#[test]
fn registry_record_break_unregistered() {
    let mut reg = KintsugiRegistry::new();
    let id = reg.record_break("ghost", make_break("b1", BreakType::CompilationError, "x", 1, 0.3));
    assert!(id.is_none());
}

#[test]
fn registry_repair() {
    let mut reg = KintsugiRegistry::new();
    reg.register("svc");
    let id = reg.record_break("svc", make_break("b1", BreakType::BuildCollapse, "boom", 1, 0.9)).unwrap();
    let ok = reg.repair("svc", &id, "reconstruct", num(0.85), "artisan", "deep lesson", "shards", "whole");
    assert!(ok);
}

#[test]
fn registry_repair_unregistered() {
    let mut reg = KintsugiRegistry::new();
    let id = BreakId("b1".into());
    let ok = reg.repair("ghost", &id, "fix", num(0.5), "me", "-", "-", "-");
    assert!(!ok);
}

#[test]
fn registry_get() {
    let mut reg = KintsugiRegistry::new();
    reg.register("svc");
    assert!(reg.get("svc").is_some());
    assert!(reg.get("nope").is_none());
}

#[test]
fn registry_stats() {
    let mut reg = KintsugiRegistry::new();
    reg.register("svc");
    let id = reg.record_break("svc", make_break("b1", BreakType::CompilationError, "err", 1, 0.3)).unwrap();
    reg.repair("svc", &id, "fix", num(0.5), "me", "-", "-", "-");
    assert_eq!(reg.len(), 1);
    assert_eq!(reg.total_breaks(), 1);
    assert_eq!(reg.total_repairs(), 1);
}

// -- Kintsugi philosophy edge cases -------------------------------------

#[test]
fn no_repaired_breaks_returns_empty_golden() {
    let trail = GoldenTrail::new();
    assert!(trail.golden_repairs().is_empty());
    assert!(trail.most_insightful_repair().is_none());
}
