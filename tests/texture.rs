use raytracer::texture::TextureData;

fn two_by_two() -> TextureData {
    TextureData {
        width: 2,
        height: 2,
        data: vec![
            1, 2, 3, 255, 4, 5, 6, 255, //
            7, 8, 9, 255, 10, 11, 12, 255,
        ],
    }
}

#[test]
fn texel_reads_row_major() {
    let t = two_by_two();
    assert_eq!(t.texel(0, 0), Some((1, 2, 3)));
    assert_eq!(t.texel(1, 0), Some((4, 5, 6)));
    assert_eq!(t.texel(0, 1), Some((7, 8, 9)));
    assert_eq!(t.texel(1, 1), Some((10, 11, 12)));
}

#[test]
fn texel_wraps_coordinates() {
    let t = two_by_two();
    assert_eq!(t.texel(2, 3), Some((7, 8, 9)));
    assert_eq!(t.texel(u32::MAX, 0), Some((4, 5, 6)));
}

#[test]
fn texel_short_data_is_none() {
    let t = TextureData { width: 2, height: 2, data: vec![1, 2, 3, 4, 5, 6] };
    assert_eq!(t.texel(0, 0), Some((1, 2, 3)));
    assert_eq!(t.texel(1, 0), None);
}

#[test]
fn texel_empty_image_is_none() {
    let t = TextureData { width: 0, height: 4, data: vec![1, 2, 3, 4] };
    assert_eq!(t.texel(0, 0), None);
}
