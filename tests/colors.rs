use torchbearer::colors::Color;

#[test]
fn color_from_argb() {
    let color = Color::from_argb(0x33123456);

    assert_eq!(
        color,
        Color {
            a: 0x33,
            r: 0x12,
            g: 0x34,
            b: 0x56
        }
    )
}

#[test]
fn color_from_rgb() {
    let color = Color::from_rgb(0x123456);

    assert_eq!(
        color,
        Color {
            a: 0xff,
            r: 0x12,
            g: 0x34,
            b: 0x56
        }
    )
}

#[test]
fn darker() {
    let color = Color::dark_red().darker();

    assert_eq!(
        color,
        Color {
            a: 255,
            r: 143,
            g: 0,
            b: 0
        }
    )
}

#[test]
fn darker_rounds_halves_up() {
    let color = Color::new(7, 2, 6, 1).darker();
    assert_eq!(color, Color::new(7, 2, 5, 1));
    assert_eq!(Color::white().darker(), Color::new(255, 191, 191, 191));
}

#[test]
fn from_rgb_ignores_top_byte() {
    assert_eq!(Color::from_rgb(0xab00ff00), Color::new(255, 0, 255, 0));
    assert_eq!(Color::from_rgb(0x800080), Color::purple());
    assert_eq!(Color::from_argb(0xff222222), Color::dark_grey());
}
