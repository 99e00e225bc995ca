use configurator::{AppData, DisplayInfo, FocusedDisplay, OutputState, Pos, Scale, Transform};

fn disp(name: &str, pos: (i32, i32), scale: u32, transform: Transform) -> DisplayInfo {
    DisplayInfo {
        name: name.to_string(),
        make: "Make".to_string(),
        model: "Model".to_string(),
        serial: "S1".to_string(),
        active: true,
        position: Pos(pos.0, pos.1),
        size: (1920, 1080),
        scale: Scale(scale),
        transform,
        id: Some(1),
        focused: false,
    }
}

fn output(name: &str, rect: (i32, i32, i32, i32), scale: Option<u32>, transform: Option<&str>) -> OutputState {
    OutputState {
        name: name.to_string(),
        make: "Make".to_string(),
        model: "Model".to_string(),
        serial: "S1".to_string(),
        active: true,
        rect,
        scale: scale.map(Scale),
        transform: transform.map(|t| t.to_string()),
        id: Some(3),
    }
}

#[test]
fn config_line_of_defaults_is_bare() {
    assert_eq!(disp("A", (0, 0), 100, Transform::Normal).config(), "output A");
}

#[test]
fn config_line_names_changed_attributes() {
    assert_eq!(
        disp("DP-1", (1920, -5), 150, Transform::R90).config(),
        "output DP-1 scale 1.50 pos 1920 -5 transform 90"
    );
    assert_eq!(disp("A", (0, 0), 200, Transform::Normal).config(), "output A scale 2.00");
    assert_eq!(disp("A", (0, 0), 100, Transform::R270).config(), "output A transform 270");
}

#[test]
fn apply_emits_only_the_changed_position() {
    let desired = AppData::from_displays(vec![disp("A", (0, 0), 100, Transform::Normal)]);
    let live = vec![disp("A", (100, 0), 100, Transform::Normal)];
    assert_eq!(desired.apply_displays(&live), vec!["output A pos 0 0".to_string()]);
}

#[test]
fn apply_emits_transform_back_to_normal() {
    let desired = AppData::from_displays(vec![disp("A", (0, 0), 125, Transform::Normal)]);
    let live = vec![disp("A", (0, 0), 100, Transform::R90)];
    assert_eq!(
        desired.apply_displays(&live),
        vec!["output A scale 1.25 transform normal".to_string()]
    );
}

#[test]
fn apply_skips_unknown_and_unchanged_displays() {
    let mut a = disp("A", (5, 5), 100, Transform::Normal);
    a.focused = true;
    a.make = "Other".to_string();
    let desired = AppData::from_displays(vec![a, disp("B", (0, 0), 100, Transform::Normal)]);
    let live = vec![
        disp("C", (0, 0), 100, Transform::Normal),
        disp("A", (5, 5), 100, Transform::Normal),
        disp("B", (1, 0), 100, Transform::Normal),
    ];
    assert_eq!(desired.apply_displays(&live), vec!["output B pos 0 0".to_string()]);
}

#[test]
fn apply_against_converged_set_is_empty() {
    let desired = AppData::from_displays(vec![
        disp("A", (0, 0), 150, Transform::R180),
        disp("B", (2880, 0), 100, Transform::Normal),
    ]);
    let live = vec![
        disp("B", (0, 0), 200, Transform::R90),
        disp("A", (3, 4), 100, Transform::Normal),
    ];
    let first = desired.apply_displays(&live);
    assert_eq!(first.len(), 2);
    let converged: Vec<DisplayInfo> = live
        .iter()
        .map(|l| {
            let ours = desired.displays().iter().find(|d| d.name == l.name).unwrap();
            let mut n = l.cloned();
            n.scale = ours.scale;
            n.position = ours.position;
            n.transform = ours.transform;
            n
        })
        .collect();
    assert!(desired.apply_displays(&converged).is_empty());
}

#[test]
fn save_config_writes_header_foreign_then_own_lines() {
    let desired = AppData::from_displays(vec![
        disp("A", (0, 0), 100, Transform::Normal),
        disp("B", (1920, 0), 150, Transform::Normal),
    ]);
    let existing = "# Automatically generated - do not edit!!\n\n  output HDMI-1 pos 0 1080 scale 2  \noutput A pos 5 5\n# output X pos 1 1\noutputs Y\noutput Z\n";
    let text = desired.save_config(existing);
    assert_eq!(
        text,
        "# Automatically generated - do not edit!!\n\noutput HDMI-1 pos 0 1080 scale 2\noutput Z\noutput A\noutput B scale 1.50 pos 1920 0\n"
    );
}

#[test]
fn save_config_of_missing_file() {
    let desired = AppData::from_displays(vec![disp("A", (0, 0), 100, Transform::R90)]);
    assert_eq!(
        desired.save_config(""),
        "# Automatically generated - do not edit!!\n\noutput A transform 90\n"
    );
}

#[test]
fn save_config_keeps_foreign_records_across_rewrites() {
    let desired = AppData::from_displays(vec![disp("A", (0, 0), 100, Transform::Normal)]);
    let existing = "output OLD-1 pos 100 0\noutput OLD-2 scale 1.25\n";
    let once = desired.save_config(existing);
    let twice = desired.save_config(&once);
    assert_eq!(once, twice);
    assert!(once.contains("\noutput OLD-1 pos 100 0\n"));
    assert!(once.contains("\noutput OLD-2 scale 1.25\n"));
}

#[test]
fn outputs_become_a_set() {
    let data = AppData::from_outputs(vec![
        output("A", (0, 0, 1920, 1080), Some(150), Some("90")),
        output("B", (1920, 0, -5, 1080), None, Some("flipped")),
        output("A", (10, 20, 800, 600), None, None),
    ]);
    assert_eq!(data.len(), 2);
    let a = &data.displays()[0];
    assert_eq!(a.name, "A");
    assert_eq!(a.position, Pos(10, 20));
    assert_eq!(a.size, (800, 600));
    assert_eq!(a.scale, Scale(100));
    assert_eq!(a.transform, Transform::Normal);
    assert!(!a.focused);
    let b = &data.displays()[1];
    assert_eq!(b.size, (0, 1080));
    assert_eq!(b.transform, Transform::Normal);
    let c = DisplayInfo::from_output(output("C", (1, 2, 3, 4), Some(150), Some("270")));
    assert_eq!(c.scale, Scale(150));
    assert_eq!(c.transform, Transform::R270);
    assert_eq!(c.id, Some(3));
}

#[test]
fn insert_replaces_same_name() {
    let mut data = AppData::new();
    data.insert(disp("A", (0, 0), 100, Transform::Normal));
    data.insert(disp("B", (0, 0), 100, Transform::Normal));
    data.insert(disp("A", (7, 7), 100, Transform::Normal));
    assert_eq!(data.len(), 2);
    assert_eq!(data.displays()[0].position, Pos(7, 7));
    assert_eq!(data.find(&"B".to_string()), Some(1));
    assert_eq!(data.find(&"Z".to_string()), None);
}

#[test]
fn focused_display_is_read_and_edited() {
    let mut a = disp("A", (0, 0), 100, Transform::Normal);
    let mut b = disp("B", (1920, 0), 100, Transform::Normal);
    b.focused = true;
    a.focused = false;
    let mut data = AppData::from_displays(vec![a, b]);
    let f = FocusedDisplay.with(&data).unwrap();
    assert_eq!(f.name, "B");
    let mut edited = f.cloned();
    edited.name = "renamed".to_string();
    edited.position = Pos(3000, 0);
    edited.scale = Scale(200);
    assert!(FocusedDisplay.with_mut(&mut data, &edited));
    let b2 = &data.displays()[1];
    assert_eq!(b2.name, "B");
    assert_eq!(b2.position, Pos(3000, 0));
    assert_eq!(b2.scale, Scale(200));
}

#[test]
fn no_focused_display() {
    let mut data = AppData::from_displays(vec![disp("A", (0, 0), 100, Transform::Normal)]);
    assert!(FocusedDisplay.with(&data).is_none());
    let edited = disp("A", (9, 9), 100, Transform::Normal);
    assert!(!FocusedDisplay.with_mut(&mut data, &edited));
    assert_eq!(data.displays()[0].position, Pos(0, 0));
}

#[test]
fn save_config_keeps_one_record_per_foreign_name() {
    let desired = AppData::from_displays(vec![disp("A", (0, 0), 100, Transform::Normal)]);
    let existing = "output OLD-1 pos 100 0\noutput OLD-2 scale 1.25\noutput OLD-1 pos 200 0\noutput OLD-2 scale 1.25\n";
    let text = desired.save_config(existing);
    assert_eq!(
        text,
        "# Automatically generated - do not edit!!\n\noutput OLD-1 pos 200 0\noutput OLD-2 scale 1.25\noutput A\n"
    );
    assert_eq!(desired.save_config(&text), text);
}

#[test]
fn reapplying_a_fresh_query_sends_nothing() {
    let data = AppData::from_outputs(vec![
        output("A", (0, 0, 1920, 1080), Some(150), Some("90")),
        output("B", (1920, 0, 1920, 1080), None, None),
    ]);
    let live: Vec<DisplayInfo> = data.displays().iter().map(|d| d.cloned()).collect();
    assert!(data.apply_displays(&live).is_empty());
}
