use raytracing2::utility::{MaterialId, TextureId};

#[test]
fn material_id_to_index() {
    assert_eq!(MaterialId(0).to_index(), 0);
    assert_eq!(MaterialId(41).to_index(), 41);
}

#[test]
fn texture_id_to_index() {
    assert_eq!(TextureId(0).to_index(), 0);
    assert_eq!(TextureId(9).to_index(), 9);
}
