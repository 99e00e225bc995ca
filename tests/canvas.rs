use configurator::{AppData, DisplayInfo, DragState, MonitorView, PointerEvent, Pos, Scale, Transform, ViewScale};

fn disp(name: &str, x: i32, y: i32, w: u32, h: u32) -> DisplayInfo {
    DisplayInfo {
        name: name.to_string(),
        make: String::new(),
        model: String::new(),
        serial: String::new(),
        active: true,
        position: Pos(x, y),
        size: (w, h),
        scale: Scale(100),
        transform: Transform::Normal,
        id: None,
        focused: false,
    }
}

fn two_side_by_side() -> AppData {
    AppData::from_displays(vec![disp("A", 0, 0, 1920, 1080), disp("B", 1920, 0, 1920, 1080)])
}

fn pos_of(data: &AppData, name: &str) -> Pos {
    data.displays().iter().find(|d| d.name == name).unwrap().position
}

#[test]
fn quantize_snaps_with_half_cell_bias() {
    let v = MonitorView::new();
    assert_eq!(v.quantize((0, 0)), (8, 8));
    assert_eq!(v.quantize((15, 16)), (8, 24));
    assert_eq!(v.quantize((-1, -17)), (-8, -24));
    assert_eq!(v.quantize((i32::MAX, i32::MIN)), (2147483640, -2147483640));
}

#[test]
fn quantize_is_idempotent() {
    let v = MonitorView::new();
    for p in [(0, 0), (33, -5), (-100, 1000), (i32::MAX, i32::MIN), (66, 10)] {
        let q = v.quantize(p);
        assert_eq!(v.quantize(q), q);
    }
}

#[test]
fn bounds_of_a_set() {
    let v = MonitorView::new();
    let data = AppData::from_displays(vec![disp("A", -10, 5, 100, 50), disp("B", 200, -20, 10, 10)]);
    assert_eq!(v.window_space_bounds(&data), Some(((-10, -20), (210, 55))));
    assert_eq!(v.window_space_bounds(&AppData::new()), None);
}

#[test]
fn normalize_moves_box_to_origin() {
    let v = MonitorView::new();
    let mut data = AppData::from_displays(vec![disp("A", -10, 5, 100, 50), disp("B", 200, -20, 10, 10)]);
    v.normalize_coords(&mut data);
    assert_eq!(pos_of(&data, "A"), Pos(0, 25));
    assert_eq!(pos_of(&data, "B"), Pos(210, 0));
    let ((x, y), _) = v.window_space_bounds(&data).unwrap();
    assert_eq!((x, y), (0, 0));
}

#[test]
fn normalize_leaves_empty_set() {
    let v = MonitorView::new();
    let mut data = AppData::new();
    v.normalize_coords(&mut data);
    assert_eq!(data.len(), 0);
}

#[test]
fn fit_two_displays_into_default_area() {
    let mut v = MonitorView::new();
    let data = two_side_by_side();
    let fit = v.center_displays(&data, (600, 500)).unwrap();
    assert_eq!(fit.scale, ViewScale { num: 560, den: 3840 });
    assert!(fit.scale.num <= fit.scale.den);
    assert_eq!(fit.size, (560, 157));
    let (w, h) = fit.size;
    assert!((w * 1080 - h * 3840).abs() <= 3840);
    assert_eq!(fit.offset, (20, 171));
    assert_eq!(v.scale, fit.scale);
    assert_eq!(v.offset, fit.offset);
}

#[test]
fn fit_never_enlarges() {
    let mut v = MonitorView::new();
    let data = AppData::from_displays(vec![disp("A", 0, 0, 100, 50)]);
    let fit = v.center_displays(&data, (600, 500)).unwrap();
    assert_eq!(fit.scale, ViewScale { num: 1, den: 1 });
    assert_eq!(fit.size, (560, 280));
    assert_eq!(fit.offset, (20, 110));
}

#[test]
fn fit_of_a_tall_arrangement() {
    let mut v = MonitorView::new();
    let data = AppData::from_displays(vec![disp("A", 0, 0, 1080, 1920), disp("B", 0, 1920, 1080, 1920)]);
    let fit = v.center_displays(&data, (600, 500)).unwrap();
    assert_eq!(fit.scale, ViewScale { num: 450, den: 3840 });
    assert_eq!(fit.size, (126, 450));
    assert_eq!(fit.offset, (237, 25));
}

#[test]
fn fit_skips_empty_set_and_small_area() {
    let mut v = MonitorView::new();
    assert!(v.center_displays(&AppData::new(), (600, 500)).is_none());
    assert!(v.center_displays(&two_side_by_side(), (40, 500)).is_none());
    assert_eq!(v.scale, ViewScale { num: 1, den: 1 });
    assert_eq!(v.offset, (0, 0));
}

#[test]
fn hit_test_inverts_the_viewport() {
    let mut v = MonitorView::new();
    v.scale = ViewScale { num: 1, den: 2 };
    v.offset = (10, 10);
    let data = two_side_by_side();
    assert_eq!(v.hit_test(&data, (10, 10)), Some(0));
    assert_eq!(v.hit_test(&data, (969, 10)), Some(0));
    assert_eq!(v.hit_test(&data, (970, 10)), Some(1));
    assert_eq!(v.hit_test(&data, (10, 550)), None);
    assert_eq!(v.hit_test(&data, (9, 10)), None);
    assert_eq!(v.unscale_coords((9, 10)), (-2, 0));
}

#[test]
fn drag_snaps_to_grid_at_half_scale() {
    let mut v = MonitorView::new();
    v.scale = ViewScale { num: 1, den: 2 };
    let mut data = two_side_by_side();
    assert!(!v.event(&mut data, PointerEvent::Down(10, 10)));
    assert!(data.displays()[0].focused);
    assert!(!data.displays()[1].focused);
    v.event(&mut data, PointerEvent::Move(43, 15));
    assert_eq!(pos_of(&data, "A"), Pos(72, 8));
    assert_ne!(pos_of(&data, "A"), Pos(66, 10));
    assert!(v.event(&mut data, PointerEvent::Up));
    assert!(v.dragging.is_none());
    assert_eq!(pos_of(&data, "A"), Pos(0, 8));
    assert_eq!(pos_of(&data, "B"), Pos(1848, 0));
}

#[test]
fn drag_backwards_rounds_down() {
    let mut v = MonitorView::new();
    let mut data = two_side_by_side();
    v.mouse_down(&mut data, (1930, 10));
    v.mouse_move(&mut data, (1929, 10));
    assert_eq!(pos_of(&data, "B"), Pos(1920 - 16 + 8, 8));
}

#[test]
fn press_elsewhere_pans_and_clears_focus() {
    let mut v = MonitorView::new();
    v.offset = (5, 7);
    let mut data = two_side_by_side();
    v.mouse_down(&mut data, (100, 100));
    v.mouse_up(&mut data);
    v.mouse_down(&mut data, (-50, -50));
    assert!(data.displays().iter().all(|d| !d.focused));
    match &v.dragging {
        Some(DragState::PanningCanvas { start }) => assert_eq!(*start, (-55, -57)),
        _ => panic!("expected a pan"),
    }
    v.mouse_move(&mut data, (-40, -45));
    assert_eq!(v.offset, (15, 12));
    assert_eq!(pos_of(&data, "A"), Pos(0, 0));
    assert!(v.mouse_up(&mut data));
    assert_eq!(pos_of(&data, "B"), Pos(1920, 0));
}

#[test]
fn press_during_drag_is_ignored() {
    let mut v = MonitorView::new();
    let mut data = two_side_by_side();
    v.mouse_down(&mut data, (10, 10));
    v.mouse_down(&mut data, (2000, 10));
    assert!(data.displays()[0].focused);
    assert!(!data.displays()[1].focused);
    match &v.dragging {
        Some(DragState::MovingDisplay { target_name, .. }) => assert_eq!(target_name, "A"),
        _ => panic!("expected a move"),
    }
}

#[test]
fn release_without_drag_does_nothing() {
    let mut v = MonitorView::new();
    let mut data = AppData::from_displays(vec![disp("A", 5, 5, 10, 10)]);
    assert!(!v.mouse_up(&mut data));
    assert_eq!(pos_of(&data, "A"), Pos(5, 5));
    v.mouse_move(&mut data, (100, 100));
    assert_eq!(pos_of(&data, "A"), Pos(5, 5));
}

#[test]
fn default_canvas_is_idle() {
    let v = MonitorView::default();
    assert_eq!(v.offset, (0, 0));
    assert_eq!(v.scale, ViewScale { num: 1, den: 1 });
    assert!(v.dragging.is_none());
}
