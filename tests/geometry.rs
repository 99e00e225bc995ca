use configurator::{Pos, Scale, Transform};

#[test]
fn pos_renders_canonically() {
    assert_eq!(Pos(-12, 345).to_string(), "(-12, 345)");
    assert_eq!(Pos(0, 0).to_string(), "(0, 0)");
}

#[test]
fn pos_round_trips() {
    for p in [Pos(0, 0), Pos(-12, 345), Pos(i32::MIN, i32::MAX), Pos(1920, -1080)] {
        assert_eq!(Pos::from_str(&p.to_string()), Ok(p));
    }
}

#[test]
fn pos_parses_loose_forms() {
    assert_eq!(Pos::from_str("(1,2)"), Ok(Pos(1, 2)));
    assert_eq!(Pos::from_str("  ( 3 , -4 ) "), Ok(Pos(3, -4)));
    assert_eq!(Pos::from_str("1, 2, 3"), Ok(Pos(1, 2)));
    assert_eq!(Pos::from_str("(+5, 6)"), Ok(Pos(5, 6)));
}

#[test]
fn pos_rejects_malformed_text() {
    assert!(Pos::from_str("").is_err());
    assert!(Pos::from_str("(1)").is_err());
    assert!(Pos::from_str("(a, 2)").is_err());
    assert!(Pos::from_str("(1, )").is_err());
    assert!(Pos::from_str("(2147483648, 0)").is_err());
    assert!(Pos::from_str("(1;2)").is_err());
}

#[test]
fn pos_converts_from_and_to_pairs() {
    let p: Pos = (7, -9).into();
    assert_eq!(p, Pos(7, -9));
    let t: (i32, i32) = p.into();
    assert_eq!(t, (7, -9));
    assert_eq!(Pos::default(), Pos(0, 0));
}

#[test]
fn scale_renders_two_decimals() {
    assert_eq!(Scale(150).to_string(), "1.50");
    assert_eq!(Scale(100).to_string(), "1.00");
    assert_eq!(Scale(5).to_string(), "0.05");
    assert_eq!(Scale(12345).to_string(), "123.45");
}

#[test]
fn scale_parses_decimals() {
    assert_eq!(Scale::from_str("1.5"), Ok(Scale(150)));
    assert_eq!(Scale::from_str("2"), Ok(Scale(200)));
    assert_eq!(Scale::from_str(".5"), Ok(Scale(50)));
    assert_eq!(Scale::from_str("1."), Ok(Scale(100)));
    assert_eq!(Scale::from_str("1.333"), Ok(Scale(133)));
    assert_eq!(Scale::from_str("1.335"), Ok(Scale(134)));
    assert_eq!(Scale::from_str("0.999"), Ok(Scale(100)));
}

#[test]
fn scale_rejects_non_numbers() {
    assert!(Scale::from_str("").is_err());
    assert!(Scale::from_str(".").is_err());
    assert!(Scale::from_str("abc").is_err());
    assert!(Scale::from_str("1.2.3").is_err());
    assert!(Scale::from_str("-1").is_err());
    assert!(Scale::from_str("0").is_err());
    assert!(Scale::from_str("0.004").is_err());
    assert!(Scale::from_str("99999999999").is_err());
}

#[test]
fn scale_round_trips() {
    for s in [Scale(1), Scale(100), Scale(125), Scale(12345), Scale(u32::MAX)] {
        assert_eq!(Scale::from_str(&s.to_string()), Ok(s));
    }
}

#[test]
fn scale_defaults_to_one() {
    assert_eq!(Scale::default(), Scale(100));
    assert_eq!(Scale::from(150u32), Scale(150));
}

#[test]
fn transform_texts() {
    assert_eq!(Transform::Normal.to_string(), "normal");
    assert_eq!(Transform::R90.to_string(), "90");
    assert_eq!(Transform::R180.to_string(), "180");
    assert_eq!(Transform::R270.to_string(), "270");
    assert_eq!(Transform::default(), Transform::Normal);
}

#[test]
fn transform_from_session_text() {
    assert_eq!(Transform::from_text("90"), Transform::R90);
    assert_eq!(Transform::from_text("180"), Transform::R180);
    assert_eq!(Transform::from_text("270"), Transform::R270);
    assert_eq!(Transform::from_text("normal"), Transform::Normal);
    assert_eq!(Transform::from_text("flipped-90"), Transform::Normal);
}

#[test]
fn scale_accepts_a_plus_sign() {
    assert_eq!(Scale::from_str("+1.25"), Ok(Scale(125)));
    assert!(Scale::from_str("+").is_err());
    assert!(Scale::from_str("++1").is_err());
    assert!(Scale::from_str("1.5e0").is_err());
}
