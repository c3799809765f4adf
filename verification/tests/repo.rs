use winnow::repo::{object_id, patch_paths};

#[test]
fn patch_paths_prefix_each_line() {
    let out = b"0001-first.patch\n0002-second.patch\n".to_vec();
    assert_eq!(
        patch_paths("proj", out),
        Some(vec!["proj/0001-first.patch".to_string(), "proj/0002-second.patch".to_string()])
    );
    assert_eq!(patch_paths("proj", Vec::new()), Some(vec![]));
}

#[test]
fn patch_paths_rejects_invalid_utf8() {
    assert_eq!(patch_paths("proj", vec![0xff, 0x0a]), None);
}

#[test]
fn object_id_trims_output() {
    let out = b"4b825dc642cb6eb9a060e54bf8d69288fbee4904\n".to_vec();
    assert_eq!(object_id(out), Some("4b825dc642cb6eb9a060e54bf8d69288fbee4904".to_string()));
    assert_eq!(object_id(vec![0xc3]), None);
}
