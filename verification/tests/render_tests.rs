use pxa_engine_win32::model::blend_mode::BlendMode;
use pxa_engine_win32::model::color::Color;
use pxa_engine_win32::model::layer::Layer;
use pxa_engine_win32::model::store::PixelStore;
use pxa_engine_win32::render::blend::blend_pixels;
use pxa_engine_win32::render::compositor::{composite_pixel_at, update_composite_cache};

#[test]
fn test_blend_multiply() {
    let bg = [255, 128, 0, 255];
    let fg = [128, 255, 255, 255];
    let res = blend_pixels(bg, fg, BlendMode::Multiply, 255);
    assert_eq!(res, [128, 128, 0, 255], "正片叠底计算错误");
}

#[test]
fn blend_normal_opaque_replaces() {
    assert_eq!(blend_pixels([10, 20, 30, 255], [200, 100, 50, 255], BlendMode::Normal, 255), [200, 100, 50, 255]);
}

#[test]
fn blend_half_opacity_mixes() {
    // coverage 255 * 128 / 255 = 128: (0 * 128 + 255 * 127) / 255 = 127
    assert_eq!(blend_pixels([255, 255, 255, 255], [0, 0, 0, 255], BlendMode::Normal, 128), [127, 127, 127, 255]);
}

#[test]
fn blend_screen_and_add() {
    assert_eq!(blend_pixels([100, 0, 0, 255], [100, 0, 0, 255], BlendMode::Screen, 255)[0], 161);
    assert_eq!(blend_pixels([200, 0, 0, 255], [100, 0, 0, 255], BlendMode::Add, 255)[0], 255);
}

#[test]
fn composite_checkerboard_and_layers() {
    let mut s = PixelStore::new(16, 16);
    s.add_layer(Layer::new("L".into(), "L".into(), 16, 16));
    s.mut_set_pixel("L", 1, 1, Color::new(255, 0, 0, 255)).unwrap();
    update_composite_cache(&mut s, None);
    assert_eq!(&s.composite_cache[0..4], &[45, 45, 45, 255]);
    let i = (8 * 4) as usize;
    assert_eq!(&s.composite_cache[i..i + 4], &[30, 30, 30, 255]);
    let j = ((1 * 16 + 1) * 4) as usize;
    assert_eq!(&s.composite_cache[j..j + 4], &[255, 0, 0, 255]);
    assert_eq!(composite_pixel_at(&s, 1, 1), [255, 0, 0, 255]);
}

#[test]
fn composite_hidden_layer_and_order() {
    let mut s = PixelStore::new(1, 1);
    let mut l0 = Layer::new("0".into(), "0".into(), 1, 1);
    l0.set_pixel(0, 0, Color::new(0, 255, 0, 255)).unwrap();
    s.add_layer(l0);
    let mut l1 = Layer::new("1".into(), "1".into(), 1, 1);
    l1.set_pixel(0, 0, Color::new(255, 0, 0, 255)).unwrap();
    s.add_layer(l1);
    assert_eq!(composite_pixel_at(&s, 0, 0), [255, 0, 0, 255]);
    s.set_layer_visibility("1", false);
    assert_eq!(composite_pixel_at(&s, 0, 0), [0, 255, 0, 255]);
}

#[test]
fn composite_partial_rect_leaves_rest() {
    let mut s = PixelStore::new(4, 4);
    s.add_layer(Layer::new("L".into(), "L".into(), 4, 4));
    update_composite_cache(&mut s, None);
    s.mut_set_pixel("L", 0, 0, Color::new(1, 2, 3, 255)).unwrap();
    s.mut_set_pixel("L", 3, 3, Color::new(4, 5, 6, 255)).unwrap();
    update_composite_cache(&mut s, Some((0, 0, 1, 1)));
    assert_eq!(&s.composite_cache[0..4], &[1, 2, 3, 255]);
    let k = ((3 * 4 + 3) * 4) as usize;
    assert_eq!(&s.composite_cache[k..k + 4], &[45, 45, 45, 255]);
}

#[test]
fn composite_selection_darkens_outside() {
    let mut s = PixelStore::new(4, 4);
    s.selection.set_rect(0, 0, 2, 2);
    update_composite_cache(&mut s, None);
    // (3, 3) lies outside the selection: 45 darkened with black at 120/255
    let k = ((3 * 4 + 3) * 4) as usize;
    assert_eq!(s.composite_cache[k], ((45u32 * 135) / 255) as u8);
}
