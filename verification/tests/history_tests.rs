use pxa_engine_win32::history::manager::HistoryManager;
use pxa_engine_win32::history::patch::ActionPatch;
use pxa_engine_win32::model::color::Color;
use pxa_engine_win32::model::layer::Layer;
use pxa_engine_win32::model::store::PixelStore;

#[test]
fn test_history_pixel_diff() {
    let mut s = PixelStore::new(10, 10);
    s.add_layer(Layer::new("L".into(), "L".into(), 10, 10));
    let mut h = HistoryManager::new(10);
    let mut p = ActionPatch::new_pixel_diff("p".into(), "L".into());
    p.add_pixel_diff(0, 0, Color::transparent(), Color::new(255, 0, 0, 255));
    let _ = h.commit(p, &mut s);
    assert_eq!(s.get_pixel("L", 0, 0).unwrap().r, 255);
    let _ = h.undo(&mut s);
    assert_eq!(s.get_pixel("L", 0, 0).unwrap().a, 0);
}

#[test]
fn test_history_max_steps() {
    let mut s = PixelStore::new(10, 10);
    s.add_layer(Layer::new("L".into(), "L".into(), 10, 10));
    let mut h = HistoryManager::new(1);
    let mut p1 = ActionPatch::new_pixel_diff("1".into(), "L".into());
    p1.add_pixel_diff(0, 0, Color::transparent(), Color::new(1, 1, 1, 255));
    let _ = h.commit(p1, &mut s);
    let mut p2 = ActionPatch::new_pixel_diff("2".into(), "L".into());
    p2.add_pixel_diff(0, 0, Color::transparent(), Color::new(1, 1, 1, 255));
    let _ = h.commit(p2, &mut s);
    assert_eq!(h.undo_stack.len(), 1);
}

#[test]
fn test_history_ignore_empty() {
    let mut s = PixelStore::new(10, 10);
    s.add_layer(Layer::new("L".into(), "L".into(), 10, 10));
    let mut h = HistoryManager::new(10);
    let _ = h.commit(ActionPatch::new_pixel_diff("e".into(), "L".into()), &mut s);
    assert_eq!(h.undo_stack.len(), 0);
}

#[test]
fn test_history_invalid_id_safety() {
    let mut s = PixelStore::new(10, 10);
    let mut h = HistoryManager::new(10);
    let mut p = ActionPatch::new_pixel_diff("p".into(), "X".into());
    p.add_pixel_diff(0, 0, Color::transparent(), Color::new(1, 1, 1, 255));
    assert!(h.commit(p, &mut s).is_err());
    assert_eq!(h.undo_stack.len(), 0);
}

#[test]
fn test_history_layer_add() {
    let mut s = PixelStore::new(10, 10);
    s.add_layer(Layer::new("BASE".into(), "BASE".into(), 10, 10));
    let mut h = HistoryManager::new(10);
    let l = Layer::new("L".into(), "L".into(), 10, 10);
    let _ = h.commit(ActionPatch::new_layer_add("p".into(), "L".into(), l, 1, None), &mut s);
    assert_eq!(s.layers.len(), 2);
    let _ = h.undo(&mut s);
    assert_eq!(s.layers.len(), 1);
}

#[test]
fn test_history_layer_remove() {
    let mut s = PixelStore::new(10, 10);
    s.add_layer(Layer::new("L1".into(), "B".into(), 10, 10));
    let l2 = Layer::new("L2".into(), "D".into(), 10, 10);
    s.add_layer(l2.clone());
    let active_id = s.active_layer_id.clone();
    let mut h = HistoryManager::new(10);
    let _ = h.commit(ActionPatch::new_layer_remove("p".into(), "L2".into(), l2, 1, active_id), &mut s);
    assert_eq!(s.layers.len(), 1);
    let _ = h.undo(&mut s);
    assert_eq!(s.layers.len(), 2);
}

#[test]
fn test_history_visibility() {
    let mut s = PixelStore::new(10, 10);
    s.add_layer(Layer::new("L".into(), "L".into(), 10, 10));
    let mut h = HistoryManager::new(10);
    let _ = h.commit(ActionPatch::new_layer_visibility("p".into(), "L".into(), false), &mut s);
    assert_eq!(s.get_layer("L").unwrap().visible, false);
    let _ = h.undo(&mut s);
    assert_eq!(s.get_layer("L").unwrap().visible, true);
}

#[test]
fn test_history_redo_clear() {
    let mut s = PixelStore::new(10, 10);
    s.add_layer(Layer::new("L".into(), "L".into(), 10, 10));
    let mut h = HistoryManager::new(10);
    let mut p1 = ActionPatch::new_pixel_diff("1".into(), "L".into());
    p1.add_pixel_diff(0, 0, Color::transparent(), Color::new(1, 1, 1, 255));
    let _ = h.commit(p1, &mut s);
    let _ = h.undo(&mut s);
    let mut p2 = ActionPatch::new_pixel_diff("2".into(), "L".into());
    p2.add_pixel_diff(0, 0, Color::transparent(), Color::new(2, 2, 2, 255));
    let _ = h.commit(p2, &mut s);
    assert_eq!(h.redo_stack.len(), 0);
}

#[test]
fn test_patch_data() {
    let mut p = ActionPatch::new_pixel_diff("id".into(), "l".into());
    p.add_pixel_diff(0, 0, Color::transparent(), Color::new(1, 1, 1, 255));
    if let Some(d) = p.pixel_diffs() {
        assert_eq!(d.len(), 1);
    }
}

// ---- further cases

#[test]
fn undo_then_redo_restores_the_change() {
    let mut s = PixelStore::new(4, 4);
    s.add_layer(Layer::new("L".into(), "L".into(), 4, 4));
    let mut h = HistoryManager::new(10);
    let mut p = ActionPatch::new_pixel_diff("p".into(), "L".into());
    p.add_pixel_diff(2, 3, Color::transparent(), Color::new(9, 8, 7, 255));
    h.commit(p, &mut s).unwrap();
    h.undo(&mut s).unwrap();
    assert_eq!(s.get_pixel("L", 2, 3).unwrap(), Color::transparent());
    assert_eq!(h.redo_stack.len(), 1);
    h.redo(&mut s).unwrap();
    assert_eq!(s.get_pixel("L", 2, 3).unwrap(), Color::new(9, 8, 7, 255));
    assert_eq!(h.undo_stack.len(), 1);
    assert_eq!(h.redo_stack.len(), 0);
}

#[test]
fn undo_on_empty_history_changes_nothing() {
    let mut s = PixelStore::new(4, 4);
    s.add_layer(Layer::new("L".into(), "L".into(), 4, 4));
    let mut h = HistoryManager::new(10);
    assert!(h.undo(&mut s).is_ok());
    assert!(h.redo(&mut s).is_ok());
    assert_eq!(h.undo_stack.len(), 0);
    assert_eq!(s.layers.len(), 1);
}

#[test]
fn opacity_patch_round_trip() {
    let mut s = PixelStore::new(4, 4);
    s.add_layer(Layer::new("L".into(), "L".into(), 4, 4));
    let mut h = HistoryManager::new(10);
    h.commit(ActionPatch::new_layer_opacity("o".into(), "L".into(), 255, 40), &mut s).unwrap();
    assert_eq!(s.get_layer("L").unwrap().opacity, 40);
    h.undo(&mut s).unwrap();
    assert_eq!(s.get_layer("L").unwrap().opacity, 255);
}

#[test]
fn composite_patch_applies_all_parts() {
    let mut s = PixelStore::new(4, 4);
    s.add_layer(Layer::new("L".into(), "L".into(), 4, 4));
    let mut h = HistoryManager::new(10);
    let mut a = ActionPatch::new_pixel_diff("a".into(), "L".into());
    a.add_pixel_diff(0, 0, Color::transparent(), Color::new(1, 0, 0, 255));
    let b = ActionPatch::new_layer_visibility("b".into(), "L".into(), false);
    h.commit(ActionPatch::new_composite("c".into(), vec![a, b]), &mut s).unwrap();
    assert_eq!(s.get_pixel("L", 0, 0).unwrap().r, 1);
    assert!(!s.get_layer("L").unwrap().visible);
    h.undo(&mut s).unwrap();
    assert_eq!(s.get_pixel("L", 0, 0).unwrap().a, 0);
    assert!(s.get_layer("L").unwrap().visible);
}

#[test]
fn new_patch_is_empty() {
    let p = ActionPatch::new_pixel_diff("p".into(), "L".into());
    assert!(p.is_empty());
    assert_eq!(p.pixel_diffs().unwrap().len(), 0);
}

use pxa_engine_win32::model::error::CoreError;

#[test]
fn commit_missing_layer_names_it() {
    let mut s = PixelStore::new(10, 10);
    let mut h = HistoryManager::new(10);
    let mut p = ActionPatch::new_pixel_diff("p".into(), "X".into());
    p.add_pixel_diff(0, 0, Color::transparent(), Color::new(1, 1, 1, 255));
    match h.commit(p, &mut s) {
        Err(CoreError::LayerNotFound(id)) => assert_eq!(id, "X"),
        _ => panic!("a missing layer is expected"),
    }
    assert_eq!(h.undo_stack.len(), 0);
    assert_eq!(h.redo_stack.len(), 0);
}

#[test]
fn composite_passes_on_failing_part() {
    let mut s = PixelStore::new(10, 10);
    s.add_layer(Layer::new("A".into(), "A".into(), 10, 10));
    let mut h = HistoryManager::new(10);
    let mut a = ActionPatch::new_pixel_diff("a".into(), "A".into());
    a.add_pixel_diff(1, 1, Color::transparent(), Color::new(9, 9, 9, 255));
    let mut z = ActionPatch::new_pixel_diff("z".into(), "Z".into());
    z.add_pixel_diff(1, 1, Color::transparent(), Color::new(1, 1, 1, 255));
    let c = ActionPatch::new_composite("c".into(), vec![a, z]);
    match h.commit(c, &mut s) {
        Err(CoreError::LayerNotFound(id)) => assert_eq!(id, "Z"),
        _ => panic!("the second part's missing layer is expected"),
    }
    assert_eq!(s.get_pixel("A", 1, 1).unwrap(), Color::new(9, 9, 9, 255));
    assert_eq!(h.undo_stack.len(), 0);
}

#[test]
fn undo_keeps_the_tile_a_change_created() {
    let mut s = PixelStore::new(100, 100);
    s.add_layer(Layer::new("L".into(), "L".into(), 100, 100));
    let mut h = HistoryManager::new(10);
    let mut p = ActionPatch::new_pixel_diff("p".into(), "L".into());
    p.add_pixel_diff(70, 70, Color::transparent(), Color::new(3, 3, 3, 255));
    assert_eq!(s.layers[0].chunks.len(), 0);
    h.commit(p, &mut s).unwrap();
    assert_eq!(s.layers[0].chunks.len(), 1);
    h.undo(&mut s).unwrap();
    assert_eq!(s.get_pixel("L", 70, 70).unwrap(), Color::transparent());
    assert_eq!(s.layers[0].chunks.len(), 1);
    assert_eq!((s.layers[0].chunks[0].cx, s.layers[0].chunks[0].cy), (1, 1));
}
