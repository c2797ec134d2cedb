use rustypi::graphics::Color;
use rustypi::mailbox::tags::PixelOrder;

#[test]
fn reads_rgb_words() {
    assert_eq!(Color::from_rgb(0xAA11_2233), Color::rgb(0x11, 0x22, 0x33));
    assert_eq!(Color::from_rgb(0x00FF_8000).encode(PixelOrder::bgr()), 0xFFFF_8000);
}

#[test]
fn encodes_channels_in_pixel_order() {
    let c = Color::rgb(0x11, 0x22, 0x33);
    assert_eq!(c.encode(PixelOrder::rgb()), 0xFF33_2211);
    assert_eq!(c.encode(PixelOrder::bgr()), 0xFF11_2233);
}

#[test]
fn named_colours_are_what_they_say() {
    assert_eq!(Color::black(), Color::rgb(0, 0, 0));
    assert_eq!(Color::white(), Color::rgb(255, 255, 255));
    assert_eq!(Color::red().encode(PixelOrder::bgr()), 0xFFFF_0000);
    assert_eq!(Color::green().encode(PixelOrder::bgr()), 0xFF00_FF00);
    assert_eq!(Color::blue().encode(PixelOrder::bgr()), 0xFF00_00FF);
    assert_eq!(Color::light_gray(), Color::from_rgb(0x00C8_C8C8));
}
