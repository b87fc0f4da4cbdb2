use pocketmine::color::Color;

#[test]
fn color_new_keeps_channels() {
    let c = Color::new(1, 2, 3, 4);
    assert_eq!((c.r(), c.g(), c.b(), c.a()), (1, 2, 3, 4));
    let o = Color::new_opaque(9, 8, 7);
    assert_eq!((o.r(), o.g(), o.b(), o.a()), (9, 8, 7, 0xff));
}

#[test]
fn color_mix_averages_each_channel() {
    let colors = [Color::new(255, 0, 0, 255), Color::new(0, 0, 255, 255), Color::new(0, 30, 0, 0)];
    let m = Color::mix(&colors).unwrap();
    assert_eq!((m.r(), m.g(), m.b(), m.a()), (85, 10, 85, 170));
}

#[test]
fn color_mix_of_nothing_is_none() {
    assert!(Color::mix(&[]).is_none());
}

#[test]
fn color_mix_of_one_is_itself() {
    let c = Color::new(12, 34, 56, 78);
    assert_eq!(Color::mix(&[c]), Some(c));
}

#[test]
fn color_argb_round_trip() {
    let c = Color::from_argb(0x80FF7F01);
    assert_eq!((c.a(), c.r(), c.g(), c.b()), (0x80, 0xff, 0x7f, 0x01));
    assert_eq!(c.to_argb(), 0x80FF7F01);
    let d = Color::new(10, 20, 30, 40);
    assert_eq!(Color::from_argb(d.to_argb()), d);
}

#[test]
fn color_rgba_round_trip() {
    let c = Color::from_rgba(0x11223344);
    assert_eq!((c.r(), c.g(), c.b(), c.a()), (0x11, 0x22, 0x33, 0x44));
    assert_eq!(c.to_rgba(), 0x11223344);
    let d = Color::new(200, 100, 50, 25);
    assert_eq!(Color::from_rgba(d.to_rgba()), d);
}

#[test]
fn color_from_rgb_is_opaque_and_ignores_top_byte() {
    let c = Color::from_rgb(0xAB123456);
    assert_eq!((c.r(), c.g(), c.b(), c.a()), (0x12, 0x34, 0x56, 0xff));
}
