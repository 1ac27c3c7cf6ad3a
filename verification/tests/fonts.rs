use rsslide::fonts::{generic_families, Face};

fn face(families: &[&str], monospaced: bool) -> Face {
    Face { families: families.iter().map(|s| s.to_string()).collect(), monospaced }
}

#[test]
fn first_face_and_first_monospaced_face() {
    let faces = vec![
        face(&["Body Sans", "Alias"], false),
        face(&["Other"], false),
        face(&["Code Mono"], true),
        face(&["Later Mono"], true),
    ];
    assert_eq!(generic_families(&faces), ("Body Sans".to_string(), "Code Mono".to_string()));
}

#[test]
fn defaults_when_nothing_fits() {
    assert_eq!(
        generic_families(&[]),
        ("DejaVu Sans".to_string(), "DejaVu Sans Mono".to_string())
    );
    let faces = vec![face(&[], false), face(&["Mono"], false)];
    assert_eq!(
        generic_families(&faces),
        ("DejaVu Sans".to_string(), "DejaVu Sans Mono".to_string())
    );
    let unnamed_mono = vec![face(&["Sans"], false), face(&[], true), face(&["Mono"], true)];
    assert_eq!(generic_families(&unnamed_mono), ("Sans".to_string(), "DejaVu Sans Mono".to_string()));
}
