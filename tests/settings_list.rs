use sfgmstenable::{
    edited_gmsts, matches_filter, matches_folded, rebuild_vms, toggle_mod_values, update_edited,
    EGmstValue, EModType, EScale, GmstMap, ModViewModel,
};

fn defaults() -> GmstMap {
    let mut m = GmstMap::new();
    m.insert("iB".to_string(), EGmstValue::Int(2));
    m.insert("bA".to_string(), EGmstValue::Bool(false));
    m.insert("uC".to_string(), EGmstValue::UInt(3));
    m
}

fn a_mod() -> ModViewModel {
    ModViewModel {
        mod_type: EModType::BatMod,
        path: "./m.txt".to_string(),
        name: "m.txt".to_string(),
        enabled: true,
        overlay_enabled: true,
        gmsts: vec![],
        txt: None,
    }
}

#[test]
fn list_is_sorted_and_unedited() {
    let vms = rebuild_vms(&defaults());
    let names: Vec<&str> = vms.iter().map(|v| v.gmst.name.as_str()).collect();
    assert_eq!(names, vec!["bA", "iB", "uC"]);
    assert!(vms.iter().all(|v| !v.is_edited));
}

#[test]
fn edited_state_follows_defaults() {
    let d = defaults();
    let mut vms = rebuild_vms(&d);
    vms[1].gmst.value = EGmstValue::Int(5);
    vms[2].gmst.value = EGmstValue::Int(3);
    update_edited(&mut vms, &d);
    let flags: Vec<bool> = vms.iter().map(|v| v.is_edited).collect();
    assert_eq!(flags, vec![false, true, true]);
    let edited = edited_gmsts(&vms);
    assert_eq!(edited.len(), 2);
    assert_eq!(edited.get("iB"), Some(EGmstValue::Int(5)));
    vms[1].gmst.value = EGmstValue::Int(2);
    update_edited(&mut vms, &d);
    assert!(!vms[1].is_edited);
}

#[test]
fn overlay_shows_and_reverts() {
    let d = defaults();
    let mut vms = rebuild_vms(&d);
    let mut parsed = GmstMap::new();
    parsed.insert("iB".to_string(), EGmstValue::Int(9));
    parsed.insert("iMissing".to_string(), EGmstValue::Int(1));
    let mut m = a_mod();
    toggle_mod_values(&mut m, &mut vms, &d, &parsed);
    assert_eq!(m.gmsts, vec!["iB".to_string(), "iMissing".to_string()]);
    assert_eq!(vms[1].gmst.value, EGmstValue::Int(9));
    assert_eq!(vms[0].gmst.value, EGmstValue::Bool(false));
    m.overlay_enabled = false;
    toggle_mod_values(&mut m, &mut vms, &d, &GmstMap::new());
    assert_eq!(vms[1].gmst.value, EGmstValue::Int(2));
    assert_eq!(m.gmsts.len(), 2);
}

#[test]
fn filter_ignores_case() {
    assert!(matches_filter("fJumpHeight", "JUMP"));
    assert!(matches_filter("fJumpHeight", ""));
    assert!(!matches_filter("fJumpHeight", "run"));
    assert!(matches_folded("abc", "bc"));
    assert!(!matches_folded("abc", "Bc"));
}

#[test]
fn scale_factors() {
    assert_eq!(EScale::Native.pixels_per_point_percent(), 120);
    assert_eq!(EScale::Small.pixels_per_point_percent(), 200);
    assert_eq!(EScale::Large.pixels_per_point_percent(), 400);
}
