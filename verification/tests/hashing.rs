use bsatoollib::calculate_hash;

#[test]
fn hash_is_deterministic() {
    let a = calculate_hash("meshes\\m\\probe_journeyman_01.nif");
    let b = calculate_hash("meshes\\m\\probe_journeyman_01.nif");
    assert_eq!(a, b);
}

#[test]
fn hash_folds_ascii_case() {
    assert_eq!(calculate_hash("A"), calculate_hash("a"));
    assert_eq!(
        calculate_hash("Meshes\\M\\Probe_Journeyman_01.NIF"),
        calculate_hash("meshes\\m\\probe_journeyman_01.nif")
    );
}

#[test]
fn hash_exact_values() {
    assert_eq!(calculate_hash(""), 0);
    assert_eq!(calculate_hash("a"), 9223372243013206016);
    assert_eq!(calculate_hash("test"), 8391372687628330356);
    assert_eq!(calculate_hash("readme.txt\0"), 0x6f678b5f6461651f);
}

#[test]
fn hash_distinguishes_names() {
    assert_ne!(calculate_hash("test"), calculate_hash("tesu"));
    assert_ne!(calculate_hash("abcd"), calculate_hash("abce"));
    assert_ne!(calculate_hash("readme.txt"), calculate_hash("readme.txu"));
}
