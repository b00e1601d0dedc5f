use apkpatch::archive::{
    entry_action, has_legacy_signature, is_v1sign, plan_reassembly, EntryAction, PatchEntry, Plan,
    RESOURCE_ALIGNMENT,
};

fn names(list: &[&str]) -> Vec<String> {
    list.iter().map(|s| s.to_string()).collect()
}

#[test]
fn legacy_signature_names() {
    assert!(is_v1sign("META-INF/CERT.SF"));
    assert!(is_v1sign("META-INF/CERT.RSA"));
    assert!(!is_v1sign("META-INF/MANIFEST.MF"));
    assert!(!is_v1sign("assets/CERT.SF"));
    assert!(!is_v1sign("META-INF"));
}

#[test]
fn actions_per_entry() {
    assert_eq!(entry_action("META-INF/CERT.SF", true), EntryAction::Skip);
    assert_eq!(entry_action("resources.arsc", false), EntryAction::StoreAligned);
    assert_eq!(entry_action("AndroidManifest.xml", true), EntryAction::Replace);
    assert_eq!(entry_action("AndroidManifest.xml", false), EntryAction::CopyRaw);
    assert_eq!(entry_action("classes.dex", true), EntryAction::CopyRaw);
    assert_eq!(RESOURCE_ALIGNMENT, 4);
}

#[test]
fn full_path_strips_signatures() {
    let input = names(&[
        "AndroidManifest.xml",
        "META-INF/CERT.SF",
        "classes.dex",
        "META-INF/CERT.RSA",
        "resources.arsc",
    ]);
    assert!(has_legacy_signature(&input));
    match plan_reassembly(&input, true) {
        Plan::Full(actions) => assert_eq!(
            actions,
            vec![
                EntryAction::Replace,
                EntryAction::Skip,
                EntryAction::CopyRaw,
                EntryAction::Skip,
                EntryAction::StoreAligned,
            ]
        ),
        Plan::Fast(_) => panic!("expected the full rewrite"),
    }
}

#[test]
fn fast_path_appends_patches() {
    let input = names(&["classes.dex", "resources.arsc", "AndroidManifest.xml"]);
    assert!(!has_legacy_signature(&input));
    match plan_reassembly(&input, true) {
        Plan::Fast(patches) => assert_eq!(
            patches,
            vec![
                PatchEntry { source: 2, action: EntryAction::Replace },
                PatchEntry { source: 1, action: EntryAction::StoreAligned },
            ]
        ),
        Plan::Full(_) => panic!("expected the fast path"),
    }
}

#[test]
fn fast_path_without_edit_realigns_only() {
    let input = names(&["AndroidManifest.xml", "resources.arsc"]);
    match plan_reassembly(&input, false) {
        Plan::Fast(patches) => assert_eq!(
            patches,
            vec![PatchEntry { source: 1, action: EntryAction::StoreAligned }]
        ),
        Plan::Full(_) => panic!("expected the fast path"),
    }
}

#[test]
fn fast_path_on_empty_container() {
    match plan_reassembly(&Vec::new(), true) {
        Plan::Fast(patches) => assert!(patches.is_empty()),
        Plan::Full(_) => panic!("expected the fast path"),
    }
}
