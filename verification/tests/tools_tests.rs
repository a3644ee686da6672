use pxa_engine_win32::model::color::Color;
use pxa_engine_win32::model::layer::Layer;
use pxa_engine_win32::model::selection::SelectionData;
use pxa_engine_win32::model::store::PixelStore;
use pxa_engine_win32::tools::fill::{flood_fill, SafeFillContext};
use pxa_engine_win32::tools::geometry::Geometry;
use pxa_engine_win32::tools::pencil::PencilTool;

#[test]
fn test_geom_line() {
    let p = Geometry::bresenham_line(0, 0, 2, 2);
    assert_eq!(p.len(), 3);
}

#[test]
fn test_geom_point() {
    let p = Geometry::bresenham_line(1, 1, 1, 1);
    assert_eq!(p.len(), 1);
}

#[test]
fn line_points_in_order() {
    let p = Geometry::bresenham_line(0, 0, 4, 2);
    assert_eq!(p, vec![(0, 0), (1, 1), (2, 1), (3, 2), (4, 2)]);
    let q = Geometry::bresenham_line(3, 0, 0, 0);
    assert_eq!(q, vec![(3, 0), (2, 0), (1, 0), (0, 0)]);
}

fn store_with_layer(w: u32, h: u32) -> PixelStore {
    let mut s = PixelStore::new(w, h);
    s.add_layer(Layer::new("L".into(), "L".into(), w, h));
    s
}

#[test]
fn pencil_stroke_paints_and_records() {
    let mut s = store_with_layer(8, 8);
    s.primary_color = Color::new(9, 9, 9, 255);
    s.brush_size = 1;
    let mut t = PencilTool::new(false);
    t.on_pointer_down(1, 1, &mut s).unwrap();
    t.on_pointer_move(4, 1, &mut s).unwrap();
    for x in 1..=4 {
        assert_eq!(s.get_pixel("L", x, 1).unwrap(), Color::new(9, 9, 9, 255));
    }
    assert_eq!(s.get_pixel("L", 5, 1).unwrap(), Color::transparent());
    let p = t.on_pointer_up(&s, "stroke".into()).unwrap().unwrap();
    assert_eq!(p.pixel_diffs().unwrap().len(), 4);
    assert!(t.original_pixels.is_empty());
}

#[test]
fn eraser_clears() {
    let mut s = store_with_layer(4, 4);
    s.mut_set_pixel("L", 2, 2, Color::new(1, 1, 1, 255)).unwrap();
    s.brush_size = 1;
    let mut t = PencilTool::new(true);
    t.on_pointer_down(2, 2, &mut s).unwrap();
    assert_eq!(s.get_pixel("L", 2, 2).unwrap().a, 0);
}

#[test]
fn pencil_without_layer_does_nothing() {
    let mut s = PixelStore::new(4, 4);
    let mut t = PencilTool::new(false);
    assert!(t.on_pointer_down(1, 1, &mut s).is_ok());
    assert!(t.on_pointer_up(&s, "x".into()).unwrap().is_none());
}

#[test]
fn flood_fill_stops_at_walls() {
    let mut l = Layer::new("L".into(), "L".into(), 5, 5);
    let wall = Color::new(0, 0, 0, 255);
    for y in 0..5 {
        l.set_pixel(2, y, wall).unwrap();
    }
    let sel = SelectionData::new(5, 5);
    let mut ctx = SafeFillContext::new(l, Vec::new());
    let red = Color::new(255, 0, 0, 255);
    flood_fill(&mut ctx, &sel, 0, 0, Color::transparent(), red);
    assert_eq!(ctx.layer.get_pixel(0, 4).unwrap(), red);
    assert_eq!(ctx.layer.get_pixel(1, 2).unwrap(), red);
    assert_eq!(ctx.layer.get_pixel(2, 2).unwrap(), wall);
    assert_eq!(ctx.layer.get_pixel(3, 0).unwrap(), Color::transparent());
}

#[test]
fn flood_fill_respects_selection() {
    let l = Layer::new("L".into(), "L".into(), 4, 4);
    let mut sel = SelectionData::new(4, 4);
    sel.set_rect(0, 0, 2, 4);
    let mut ctx = SafeFillContext::new(l, Vec::new());
    let blue = Color::new(0, 0, 255, 255);
    flood_fill(&mut ctx, &sel, 0, 0, Color::transparent(), blue);
    assert_eq!(ctx.layer.get_pixel(1, 3).unwrap(), blue);
    assert_eq!(ctx.layer.get_pixel(2, 0).unwrap(), Color::transparent());
}

use pxa_engine_win32::history::patch::PatchAction;
use pxa_engine_win32::render::compositor::update_composite_cache;
use pxa_engine_win32::tools::bucket::BucketTool;
use pxa_engine_win32::tools::select::{EllipseSelectTool, EyedropperTool, RectSelectTool};

#[test]
fn test_eyedropper_composite_picking() {
    let mut s = PixelStore::new(1, 1);

    let mut l1 = Layer::new("1".into(), "L1".into(), 1, 1);
    l1.set_pixel(0, 0, Color::new(0, 0, 255, 255)).unwrap();
    s.add_layer(l1);

    let mut l2 = Layer::new("2".into(), "L2".into(), 1, 1);
    l2.set_pixel(0, 0, Color::new(255, 0, 0, 255)).unwrap();
    s.add_layer(l2);
    update_composite_cache(&mut s, None);
    let mut tool = EyedropperTool::new();

    let _ = tool.on_pointer_down(0, 0, &mut s);
    assert_eq!(s.primary_color.r, 255);

    s.layers[1].visible = false;
    update_composite_cache(&mut s, None);
    let _ = tool.on_pointer_down(0, 0, &mut s);
    assert_eq!(s.primary_color.b, 255);

    s.layers[1].visible = true;
    s.layers[1].set_pixel(0, 0, Color::transparent()).unwrap();
    update_composite_cache(&mut s, None);
    let _ = tool.on_pointer_down(0, 0, &mut s);
    assert_eq!(s.primary_color.b, 255);
}

#[test]
fn eyedropper_off_canvas_is_transparent() {
    let mut s = PixelStore::new(2, 2);
    s.primary_color = Color::new(1, 2, 3, 4);
    let mut tool = EyedropperTool::new();
    tool.on_pointer_move(5, 5, &mut s).unwrap();
    assert_eq!(s.primary_color, Color::transparent());
}

#[test]
fn bucket_fills_region_and_records_patch() {
    let mut s = store_with_layer(8, 8);
    let wall = Color::new(0, 0, 0, 255);
    for y in 0..8 {
        s.mut_set_pixel("L", 4, y, wall).unwrap();
    }
    s.primary_color = Color::new(10, 20, 30, 255);
    let mut t = BucketTool::new();
    t.on_pointer_down(1, 1, &mut s).unwrap();
    assert_eq!(s.get_pixel("L", 0, 7).unwrap(), Color::new(10, 20, 30, 255));
    assert_eq!(s.get_pixel("L", 3, 0).unwrap(), Color::new(10, 20, 30, 255));
    assert_eq!(s.get_pixel("L", 4, 0).unwrap(), wall);
    assert_eq!(s.get_pixel("L", 5, 0).unwrap(), Color::transparent());
    assert_eq!(t.take_dirty_rect(), Some((0, 0, 4, 8)));
    assert_eq!(t.take_dirty_rect(), None);
    let p = t.on_pointer_up(&s, "fill".into()).unwrap().unwrap();
    match &p.action {
        PatchAction::PixelDiff(d) => {
            assert_eq!(d.diffs.len(), 32);
            assert_eq!((d.diffs[0].x, d.diffs[0].y), (0, 0));
            assert_eq!(d.diffs[0].old_color, Color::transparent());
            assert_eq!(d.diffs[0].new_color, Color::new(10, 20, 30, 255));
        }
        _ => panic!("a fill records pixel changes"),
    }
    assert!(t.backup_chunks.is_empty());
}

#[test]
fn bucket_same_colour_does_nothing() {
    let mut s = store_with_layer(4, 4);
    s.primary_color = Color::transparent();
    let mut t = BucketTool::new();
    t.on_pointer_down(1, 1, &mut s).unwrap();
    assert_eq!(t.take_dirty_rect(), None);
    assert!(t.on_pointer_up(&s, "x".into()).unwrap().is_none());
}

#[test]
fn bucket_on_locked_layer_fails() {
    let mut s = store_with_layer(4, 4);
    s.layers[0].locked = true;
    s.primary_color = Color::new(1, 1, 1, 255);
    let mut t = BucketTool::new();
    assert!(t.on_pointer_down(1, 1, &mut s).is_err());
}

#[test]
fn rect_select_drag() {
    let mut s = PixelStore::new(6, 6);
    let mut t = RectSelectTool::new();
    t.on_pointer_down(4, 1, &mut s).unwrap();
    t.on_pointer_move(1, 3, &mut s).unwrap();
    assert!(s.selection.contains(1, 1));
    assert!(s.selection.contains(4, 3));
    assert!(!s.selection.contains(0, 0));
    assert!(!s.selection.contains(5, 3));
    assert_eq!(s.selection.count(), 12);
    assert_eq!(t.take_dirty_rect(), Some((0, 0, u32::MAX, u32::MAX)));
    let p = t.on_pointer_up(&mut s, "sel".into()).unwrap();
    assert!(p.is_some());
}

#[test]
fn rect_select_click_clears() {
    let mut s = PixelStore::new(6, 6);
    let mut t = RectSelectTool::new();
    t.on_pointer_down(-3, 2, &mut s).unwrap();
    assert!(s.selection.contains(0, 2));
    let p = t.on_pointer_up(&mut s, "sel".into()).unwrap();
    assert!(!s.selection.is_active);
    assert!(p.is_none());
}

#[test]
fn rect_select_cancel_restores() {
    let mut s = PixelStore::new(6, 6);
    let mut t = RectSelectTool::new();
    t.on_pointer_down(0, 0, &mut s).unwrap();
    t.on_pointer_move(3, 3, &mut s).unwrap();
    t.on_cancel(&mut s);
    assert!(!s.selection.is_active);
}

#[test]
fn ellipse_select_empty_restores() {
    let mut s = PixelStore::new(4, 4);
    let mut t = EllipseSelectTool::new();
    assert!(t.on_pointer_up(&mut s, "e".into()).unwrap().is_none());
    assert_eq!(t.take_dirty_rect(), None);
}

use pxa_engine_win32::tools::move_tool::MoveTool;

#[test]
fn move_layer_without_selection() {
    let mut s = store_with_layer(8, 8);
    let mut t = MoveTool::new();
    t.on_pointer_down(2, 2, &s).unwrap();
    t.on_pointer_move(5, 1, &mut s).unwrap();
    assert_eq!(s.layers[0].offset_x, 3);
    assert_eq!(s.layers[0].offset_y, -1);
    assert_eq!(t.take_dirty_rect(), Some((0, 0, u32::MAX, u32::MAX)));
    let p = t.on_pointer_up(&s, "a".into(), "b".into(), "c".into()).unwrap().unwrap();
    assert_eq!(p.id, "c");
    match p.action {
        PatchAction::LayerOffset(o) => {
            assert_eq!(o.old_offset, (0, 0));
            assert_eq!(o.new_offset, (3, -1));
        }
        _ => panic!("an offset change is expected"),
    }
}

#[test]
fn move_selected_pixels() {
    let mut s = store_with_layer(8, 8);
    let red = Color::new(255, 0, 0, 255);
    s.mut_set_pixel("L", 1, 1, red).unwrap();
    s.mut_set_pixel("L", 6, 6, red).unwrap();
    s.selection.set_rect(0, 0, 3, 3);
    let mut t = MoveTool::new();
    t.on_pointer_down(1, 1, &s).unwrap();
    assert_eq!(t.extracted_pixels.len(), 1);
    t.on_pointer_move(3, 2, &mut s).unwrap();
    assert_eq!(s.get_pixel("L", 1, 1).unwrap(), Color::transparent());
    assert_eq!(s.get_pixel("L", 3, 2).unwrap(), red);
    assert_eq!(s.get_pixel("L", 6, 6).unwrap(), red);
    assert!(s.selection.contains(2, 1));
    assert!(!s.selection.contains(0, 0));
    let p = t.on_pointer_up(&s, "sel".into(), "px".into(), "all".into()).unwrap().unwrap();
    match p.action {
        PatchAction::Composite(c) => {
            assert_eq!(c.patches.len(), 2);
            assert_eq!(c.patches[0].id, "sel");
            assert_eq!(c.patches[1].pixel_diffs().unwrap().len(), 2);
        }
        _ => panic!("a composite change is expected"),
    }
}

#[test]
fn move_cancel_restores() {
    let mut s = store_with_layer(8, 8);
    let mut t = MoveTool::new();
    t.on_pointer_down(0, 0, &s).unwrap();
    t.on_pointer_move(4, 4, &mut s).unwrap();
    t.on_cancel(&mut s);
    assert_eq!(s.layers[0].offset_x, 0);
    assert_eq!(s.layers[0].offset_y, 0);
}

#[test]
fn move_locked_layer_fails() {
    let mut s = store_with_layer(4, 4);
    s.layers[0].locked = true;
    let mut t = MoveTool::new();
    assert!(t.on_pointer_down(0, 0, &s).is_err());
}

use pxa_engine_win32::model::path::PathNode;
use pxa_engine_win32::tools::pen::PenTool;

fn node(x: f32, y: f32) -> PathNode {
    PathNode {
        anchor_x: x.to_bits(),
        anchor_y: y.to_bits(),
        handle_in_x: 0,
        handle_in_y: 0,
        handle_out_x: 0,
        handle_out_y: 0,
        smooth: false,
    }
}

#[test]
fn pen_fill_region() {
    let mut s = store_with_layer(6, 6);
    s.primary_color = Color::new(7, 7, 7, 255);
    s.mut_set_pixel("L", 2, 2, Color::new(7, 7, 7, 255)).unwrap();
    let t = PenTool::new();
    let mut region = SelectionData::new(6, 6);
    region.set_rect(1, 1, 3, 3);
    assert!(t.fill(&s, &region, "f".into()).is_none());
    s.active_path.nodes = vec![node(1.0, 1.0), node(4.0, 1.0), node(4.0, 4.0)];
    let p = t.fill(&s, &region, "f".into()).unwrap();
    let d = p.pixel_diffs().unwrap();
    assert_eq!(d.len(), 8);
    assert_eq!((d[0].x, d[0].y), (1, 1));
}

#[test]
fn pen_stroke_open_path() {
    let mut s = store_with_layer(6, 6);
    s.primary_color = Color::new(9, 0, 0, 255);
    s.active_path.nodes = vec![node(0.0, 0.0), node(3.0, 0.0), node(3.0, 2.0)];
    let t = PenTool::new();
    let pts = vec![(0, 0), (3, 0), (3, 2)];
    let p = t.stroke(&s, &pts, "s".into()).unwrap();
    let d = p.pixel_diffs().unwrap();
    assert_eq!(d.len(), 6);
    assert_eq!((d[5].x, d[5].y), (3, 2));
    assert_eq!(d[0].old_color, Color::transparent());
    assert_eq!(d[0].new_color, Color::new(9, 0, 0, 255));
}

#[test]
fn pen_stroke_closed_and_clipped() {
    let mut s = store_with_layer(3, 3);
    s.active_path.nodes = vec![node(0.0, 0.0)];
    s.active_path.is_closed = true;
    let t = PenTool::new();
    let pts = vec![(-2, 0), (2, 0)];
    let p = t.stroke(&s, &pts, "s".into()).unwrap();
    assert_eq!(p.pixel_diffs().unwrap().len(), 3);
}

#[test]
fn pen_cancel_clears_path() {
    let mut s = store_with_layer(3, 3);
    s.active_path.nodes = vec![node(0.0, 0.0)];
    s.active_path.is_closed = true;
    let mut t = PenTool::new();
    t.on_cancel(&mut s);
    assert!(s.active_path.nodes.is_empty());
    assert!(!s.active_path.is_closed);
}

use pxa_engine_win32::tools::transform::extract_pixels;

#[test]
fn extract_whole_layer() {
    let mut l = Layer::new("L".into(), "L".into(), 3, 2);
    l.offset_x = 5;
    l.set_pixel(1, 1, Color::new(4, 5, 6, 255)).unwrap();
    let sel = SelectionData::new(10, 10);
    let (img, tiles) = extract_pixels(&mut l, &sel).unwrap().unwrap();
    assert_eq!((img.min_x, img.min_y, img.width, img.height), (5, 0, 3, 2));
    assert!(img.mask.iter().all(|m| *m));
    assert_eq!(img.pixels[1 * 3 + 1], Color::new(4, 5, 6, 255));
    assert_eq!(l.get_pixel(1, 1).unwrap(), Color::transparent());
    assert_eq!(tiles.len(), 1);
    assert_eq!((tiles[0].cx, tiles[0].cy), (0, 0));
}

#[test]
fn extract_selection_box() {
    let mut l = Layer::new("L".into(), "L".into(), 8, 8);
    l.set_pixel(2, 3, Color::new(1, 1, 1, 255)).unwrap();
    l.set_pixel(6, 6, Color::new(2, 2, 2, 255)).unwrap();
    let mut sel = SelectionData::new(8, 8);
    sel.set_rect(2, 3, 2, 2);
    let (img, _tiles) = extract_pixels(&mut l, &sel).unwrap().unwrap();
    assert_eq!((img.min_x, img.min_y, img.width, img.height), (2, 3, 2, 2));
    assert_eq!(img.pixels[0], Color::new(1, 1, 1, 255));
    assert_eq!(l.get_pixel(2, 3).unwrap(), Color::transparent());
    assert_eq!(l.get_pixel(6, 6).unwrap(), Color::new(2, 2, 2, 255));
}

#[test]
fn extract_empty_selection_and_locked() {
    let mut l = Layer::new("L".into(), "L".into(), 4, 4);
    let mut sel = SelectionData::new(4, 4);
    sel.is_active = true;
    assert!(extract_pixels(&mut l, &sel).unwrap().is_none());
    l.locked = true;
    assert!(extract_pixels(&mut l, &sel).is_err());
}

use pxa_engine_win32::tools::cursor::CursorOverlay;

#[test]
fn brush_rect_centres_square() {
    assert_eq!(CursorOverlay::calculate_brush_rect(10, 10, 5), (8, 8, 5, 5));
    assert_eq!(CursorOverlay::calculate_brush_rect(0, 3, 4), (-2, 1, 4, 4));
}

use pxa_engine_win32::history::manager::HistoryManager;

#[test]
fn stroke_undo_restores_layer() {
    let mut s = store_with_layer(8, 8);
    s.mut_set_pixel("L", 3, 1, Color::new(5, 5, 5, 255)).unwrap();
    s.primary_color = Color::new(200, 0, 0, 255);
    s.brush_size = 1;
    let before: Vec<Color> = (0..64).map(|i| s.get_pixel("L", i % 8, i / 8).unwrap()).collect();
    let mut t = PencilTool::new(false);
    t.on_pointer_down(1, 1, &mut s).unwrap();
    t.on_pointer_move(6, 1, &mut s).unwrap();
    let p = t.on_pointer_up(&s, "stroke".into()).unwrap().unwrap();
    let h = HistoryManager::new(10);
    h.apply_patch(&p, &mut s, false).unwrap();
    let after: Vec<Color> = (0..64).map(|i| s.get_pixel("L", i % 8, i / 8).unwrap()).collect();
    assert_eq!(before, after);
}

#[test]
fn bucket_clear_colour_inside_stored_tile() {
    let mut s = store_with_layer(4, 4);
    s.mut_set_pixel("L", 0, 0, Color::new(9, 9, 9, 255)).unwrap();
    s.primary_color = Color::new(1, 2, 3, 0);
    let mut t = BucketTool::new();
    t.on_pointer_down(2, 2, &mut s).unwrap();
    assert_eq!(s.get_pixel("L", 3, 3).unwrap(), Color::new(1, 2, 3, 0));
    assert_eq!(s.get_pixel("L", 0, 0).unwrap(), Color::new(9, 9, 9, 255));
    assert_eq!(t.take_dirty_rect(), Some((0, 0, 4, 4)));
}

#[test]
fn line_steps_move_toward_the_end_without_repeats() {
    let pts = Geometry::bresenham_line(5, 1, -2, 4);
    assert_eq!(pts.len(), 8);
    for k in 0..pts.len() - 1 {
        let (dx, dy) = (pts[k + 1].0 - pts[k].0, pts[k + 1].1 - pts[k].1);
        assert!(dx == 0 || dx == -1);
        assert!(dy == 0 || dy == 1);
        assert!(dx != 0 || dy != 0);
    }
    for k in 0..pts.len() {
        for l in k + 1..pts.len() {
            assert_ne!(pts[k], pts[l]);
        }
    }
}

use pxa_engine_win32::tools::transform::TransformState;

#[test]
fn transform_commit_records_placed_pixels() {
    let mut s = store_with_layer(8, 8);
    let red = Color::new(255, 0, 0, 255);
    s.mut_set_pixel("L", 2, 3, red).unwrap();
    let mut t = TransformState::new();
    t.layer_backup = Some(s.layers[0].clone());
    t.sel_backup = Some(s.selection.clone());
    t.is_active = true;
    s.mut_set_pixel("L", 2, 3, Color::transparent()).unwrap();
    s.mut_set_pixel("L", 5, 5, red).unwrap();
    let p = t.on_commit(&s, "sel".into(), "px".into(), "all".into()).unwrap().unwrap();
    assert!(!t.is_active);
    assert!(t.layer_backup.is_none() && t.sel_backup.is_none());
    assert_eq!(p.id, "all");
    match p.action {
        PatchAction::Composite(c) => {
            assert_eq!(c.patches.len(), 1);
            assert_eq!(c.patches[0].id, "px");
            let ds = c.patches[0].pixel_diffs().unwrap();
            assert_eq!(ds.len(), 2);
            assert_eq!((ds[0].x, ds[0].y, ds[0].old_color, ds[0].new_color), (2, 3, red, Color::transparent()));
            assert_eq!((ds[1].x, ds[1].y, ds[1].old_color, ds[1].new_color), (5, 5, Color::transparent(), red));
        }
        _ => panic!("a composite change is expected"),
    }
    assert!(t.on_commit(&s, "a".into(), "b".into(), "c".into()).unwrap().is_none());
}

#[test]
fn transform_cancel_restores_tiles_and_selection() {
    let mut s = store_with_layer(8, 8);
    let red = Color::new(255, 0, 0, 255);
    s.mut_set_pixel("L", 2, 3, red).unwrap();
    let mut t = TransformState::new();
    t.layer_backup = Some(s.layers[0].clone());
    t.sel_backup = Some(s.selection.clone());
    t.is_active = true;
    s.mut_set_pixel("L", 2, 3, Color::transparent()).unwrap();
    s.selection.set_rect(0, 0, 2, 2);
    t.on_cancel(&mut s);
    assert_eq!(s.get_pixel("L", 2, 3).unwrap(), red);
    assert!(!s.selection.is_active);
    assert!(!t.is_active);
    assert_eq!(t.take_dirty_rect(), Some((0, 0, u32::MAX, u32::MAX)));
    assert_eq!(t.take_dirty_rect(), None);
}
