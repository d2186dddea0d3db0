use flagview::bitmap::{Bitmap, Color};
use flagview::render::ansi::{AnsiRenderer, AnsiRendererOptions};
use flagview::render::framebuffer::{default_device, FramebufferRenderer, FramebufferRendererOptions};
use flagview::render::image::{default_height, default_width, ImageRenderer, ImageRendererOptions};
use flagview::render::{default_renderer_name, Renderers};

#[test]
fn renderer_names_are_read_in_any_case() {
    assert_eq!(Renderers::from_str("ansi"), Ok(Renderers::Ansi));
    assert_eq!(Renderers::from_str("ANSI"), Ok(Renderers::Ansi));
    assert_eq!(Renderers::from_str("Ansi"), Ok(Renderers::Ansi));
    assert_eq!(Renderers::from_str("image"), Ok(Renderers::Image));
    assert_eq!(Renderers::from_str("Image"), Ok(Renderers::Image));
    assert_eq!(Renderers::from_str("framebuffer"), Ok(Renderers::Framebuffer));
    assert_eq!(Renderers::from_str("FrameBuffer"), Ok(Renderers::Framebuffer));
}

#[test]
fn other_renderer_names_are_refused() {
    assert_eq!(Renderers::from_str(""), Err(()));
    assert_eq!(Renderers::from_str("list"), Err(()));
    assert_eq!(Renderers::from_str("ansi "), Err(()));
    assert_eq!(Renderers::from_str(" ansi"), Err(()));
    assert_eq!(Renderers::from_str("ans"), Err(()));
    assert_eq!(Renderers::from_str("ansii"), Err(()));
    assert_eq!(Renderers::from_str("imag\u{e9}"), Err(()));
    assert_eq!(Renderers::from_str("\u{e9}nsi"), Err(()));
    assert_eq!(Renderers::from_str("!NSI"), Err(()));
    assert_eq!(Renderers::from_str("[mage"), Err(()));
    assert_eq!(Renderers::from_str("\u{1}msi"), Err(()));
    assert_eq!(Renderers::from_str("ANS\u{130}"), Err(()));
    assert_eq!(Renderers::from_str("framebuffer\u{212a}"), Err(()));
}

#[test]
fn renderer_names_agree_with_lower_casing() {
    let names = ["ansi", "ANSI", "aNsI", "image", "IMAGE", "framebuffer", "FRAMEBUFFER", "ANS\u{130}", "ans\u{131}", ""];
    for name in names {
        let expected = match name.to_lowercase().as_ref() {
            "ansi" => Ok(Renderers::Ansi),
            "image" => Ok(Renderers::Image),
            "framebuffer" => Ok(Renderers::Framebuffer),
            _ => Err(()),
        };
        assert_eq!(Renderers::from_str(name), expected);
    }
}

#[test]
fn default_renderer_is_ansi() {
    assert_eq!(default_renderer_name(), "ansi");
    assert_eq!(Renderers::from_str(&default_renderer_name()), Ok(Renderers::Ansi));
}

#[test]
fn default_options() {
    assert_eq!(AnsiRendererOptions::default(), AnsiRendererOptions { true_color: false });
    assert_eq!(default_device(), "/dev/fb0");
    assert_eq!(FramebufferRendererOptions::default(), FramebufferRendererOptions { device: "/dev/fb0".to_string() });
    assert_eq!(default_width(), 640);
    assert_eq!(default_height(), 480);
    assert_eq!(
        ImageRendererOptions::default(),
        ImageRendererOptions { output: String::new(), width: 640, height: 480 }
    );
}

#[test]
fn renderers_keep_their_options() {
    let ansi = AnsiRenderer::new(AnsiRendererOptions { true_color: true });
    assert!(ansi.options.true_color);
    let image = ImageRenderer::new(ImageRendererOptions { output: "out.png".to_string(), width: 3, height: 4 });
    assert_eq!(image.options.output, "out.png");
    assert_eq!(image.get_size(), (3, 4));
    let framebuffer = FramebufferRenderer::new(FramebufferRendererOptions { device: "/dev/fb1".to_string() });
    assert_eq!(framebuffer.options.device, "/dev/fb1");
}

#[test]
fn terminal_canvas_has_two_pixels_per_row() {
    assert_eq!(AnsiRenderer::canvas_size(80, 24), (80, 48));
    assert_eq!(AnsiRenderer::canvas_size(0, 0), (0, 0));
    assert_eq!(AnsiRenderer::canvas_size(65535, 65535), (65535, 131070));
}

fn two_by_four() -> Bitmap {
    let mut bitmap = Bitmap::new(2, 4);
    bitmap.set(0, 0, Color::new(255, 0, 0));
    bitmap.set(1, 0, Color::new(255, 0, 0));
    bitmap.set(0, 1, Color::new(0, 0, 255));
    bitmap.set(1, 1, Color::new(0, 128, 255));
    bitmap.set(0, 2, Color::new(1, 2, 3));
    bitmap.set(1, 2, Color::new(1, 2, 3));
    bitmap.set(0, 3, Color::new(0, 128, 255));
    bitmap.set(1, 3, Color::new(9, 9, 9));
    bitmap
}

#[test]
fn true_color_frame() {
    let renderer = AnsiRenderer::new(AnsiRendererOptions { true_color: true });
    let frame = renderer.frame(&two_by_four(), 80, 48);
    let expected = [
        "\x1b[?25l",
        "\x1b[2J",
        "\x1b[1;1H",
        "\x1b[38;2;255;0;0m",
        "\x1b[48;2;0;0;255m",
        "\u{2580}",
        "\x1b[48;2;0;128;255m",
        "\u{2580}",
        "\x1b[2;1H",
        "\x1b[38;2;1;2;3m",
        "\u{2580}",
        "\x1b[48;2;9;9;9m",
        "\u{2580}",
    ]
    .concat();
    assert_eq!(frame, expected);
}

#[test]
fn palette_frame() {
    let renderer = AnsiRenderer::new(AnsiRendererOptions::default());
    let frame = renderer.frame(&two_by_four(), 80, 48);
    // 255 is level 4, 128 is level 2, anything below 52 is level 0.
    let expected = [
        "\x1b[?25l",
        "\x1b[2J",
        "\x1b[1;1H",
        "\x1b[38;5;160m",
        "\x1b[48;5;20m",
        "\u{2580}",
        "\x1b[48;5;32m",
        "\u{2580}",
        "\x1b[2;1H",
        "\x1b[38;5;16m",
        "\u{2580}",
        "\x1b[48;5;16m",
        "\u{2580}",
    ]
    .concat();
    assert_eq!(frame, expected);
}

#[test]
fn frame_is_cut_to_the_terminal() {
    let renderer = AnsiRenderer::new(AnsiRendererOptions { true_color: true });
    let frame = renderer.frame(&two_by_four(), 1, 2);
    let expected =
        ["\x1b[?25l", "\x1b[2J", "\x1b[1;1H", "\x1b[38;2;255;0;0m", "\x1b[48;2;0;0;255m", "\u{2580}"].concat();
    assert_eq!(frame, expected);
    let frame = renderer.frame(&two_by_four(), 0, 4);
    assert_eq!(frame, "\x1b[?25l\x1b[2J\x1b[1;1H\x1b[2;1H");
    let frame = renderer.frame(&two_by_four(), 5, 0);
    assert_eq!(frame, "\x1b[?25l\x1b[2J");
    let frame = renderer.frame(&two_by_four(), 1, 3);
    let expected = [
        "\x1b[?25l",
        "\x1b[2J",
        "\x1b[1;1H",
        "\x1b[38;2;255;0;0m",
        "\x1b[48;2;0;0;255m",
        "\u{2580}",
        "\x1b[2;1H",
        "\x1b[38;2;1;2;3m",
        "\x1b[48;2;0;128;255m",
        "\u{2580}",
    ]
    .concat();
    assert_eq!(frame, expected);
}

#[test]
fn frame_of_empty_bitmap() {
    let renderer = AnsiRenderer::new(AnsiRendererOptions::default());
    assert_eq!(renderer.frame(&Bitmap::new(0, 0), 80, 48), "\x1b[?25l\x1b[2J");
    assert_eq!(renderer.frame(&Bitmap::new(3, 0), 80, 48), "\x1b[?25l\x1b[2J");
    assert_eq!(renderer.frame(&Bitmap::new(0, 2), 80, 48), "\x1b[?25l\x1b[2J\x1b[1;1H");
}

#[test]
fn palette_levels() {
    let renderer = AnsiRenderer::new(AnsiRendererOptions::default());
    let mut bitmap = Bitmap::new(1, 2);
    for (channel, level) in [(0u8, 0u8), (51, 0), (52, 1), (102, 1), (103, 2), (153, 2), (154, 3), (204, 3), (205, 4), (255, 4)] {
        bitmap.set(0, 0, Color::new(channel, 0, 0));
        bitmap.set(0, 1, Color::new(0, channel, channel));
        let frame = renderer.frame(&bitmap, 1, 2);
        let upper = 16 + 36 * level as u32;
        let lower = 16 + 6 * level as u32 + level as u32;
        assert_eq!(frame, format!("\x1b[?25l\x1b[2J\x1b[1;1H\x1b[38;5;{}m\x1b[48;5;{}m\u{2580}", upper, lower));
    }
}

#[test]
fn image_pixel_is_black_past_the_bitmap() {
    let bitmap = two_by_four();
    assert_eq!(ImageRenderer::pixel(&bitmap, 0, 0), [255, 0, 0]);
    assert_eq!(ImageRenderer::pixel(&bitmap, 1, 1), [0, 128, 255]);
    assert_eq!(ImageRenderer::pixel(&bitmap, 1, 3), [9, 9, 9]);
    assert_eq!(ImageRenderer::pixel(&bitmap, 2, 0), [0, 0, 0]);
    assert_eq!(ImageRenderer::pixel(&bitmap, 0, 4), [0, 0, 0]);
    assert_eq!(ImageRenderer::pixel(&bitmap, u32::MAX, u32::MAX), [0, 0, 0]);
}

#[test]
fn framebuffer_frame_is_blue_green_red() {
    let bitmap = two_by_four();
    let frame = FramebufferRenderer::frame(&bitmap, 12, 2, 4);
    assert_eq!(
        frame,
        vec![
            0, 0, 255, 0, 0, 0, 255, 0, 0, 0, 0, 0, //
            255, 0, 0, 0, 255, 128, 0, 0, 0, 0, 0, 0,
        ]
    );
}

#[test]
fn framebuffer_frame_with_three_bytes_per_pixel() {
    let bitmap = two_by_four();
    let frame = FramebufferRenderer::frame(&bitmap, 6, 5, 3);
    assert_eq!(
        frame,
        vec![
            0, 0, 255, 0, 0, 255, //
            255, 0, 0, 255, 128, 0, //
            3, 2, 1, 3, 2, 1, //
            255, 128, 0, 9, 9, 9, //
            0, 0, 0, 0, 0, 0,
        ]
    );
}

#[test]
fn framebuffer_frame_with_part_of_a_pixel_at_line_end() {
    let bitmap = two_by_four();
    let frame = FramebufferRenderer::frame(&bitmap, 7, 1, 4);
    assert_eq!(frame, vec![0, 0, 255, 0, 0, 0, 255]);
}

#[test]
fn framebuffer_frame_without_lines_is_empty() {
    let bitmap = two_by_four();
    assert_eq!(FramebufferRenderer::frame(&bitmap, 8, 0, 4), Vec::<u8>::new());
    assert_eq!(FramebufferRenderer::frame(&bitmap, 8, 0, 0), Vec::<u8>::new());
}

#[test]
fn every_channel_value_is_written_in_decimal() {
    let renderer = AnsiRenderer::new(AnsiRendererOptions { true_color: true });
    let mut bitmap = Bitmap::new(1, 2);
    for value in 0..=255u8 {
        bitmap.set(0, 0, Color::new(value, 0, 255 - value));
        bitmap.set(0, 1, Color::new(255 - value, value, 7));
        let frame = renderer.frame(&bitmap, 1, 2);
        let expected = format!(
            "\x1b[?25l\x1b[2J\x1b[1;1H\x1b[38;2;{};0;{}m\x1b[48;2;{};{};7m\u{2580}",
            value,
            255 - value,
            255 - value,
            value
        );
        assert_eq!(frame, expected);
    }
}

#[test]
fn every_palette_color_is_written_in_decimal() {
    let renderer = AnsiRenderer::new(AnsiRendererOptions::default());
    let mut bitmap = Bitmap::new(1, 2);
    let steps = [0u8, 52, 103, 154, 205];
    for (r, red) in steps.iter().enumerate() {
        for (g, green) in steps.iter().enumerate() {
            for (b, blue) in steps.iter().enumerate() {
                bitmap.set(0, 0, Color::new(*red, *green, *blue));
                bitmap.set(0, 1, Color::new(*blue, *red, *green));
                let frame = renderer.frame(&bitmap, 1, 2);
                let upper = 16 + 36 * r + 6 * g + b;
                let lower = 16 + 36 * b + 6 * r + g;
                let expected = format!("\x1b[?25l\x1b[2J\x1b[1;1H\x1b[38;5;{}m\x1b[48;5;{}m\u{2580}", upper, lower);
                assert_eq!(frame, expected);
            }
        }
    }
}

#[test]
fn rows_are_numbered_in_decimal() {
    let renderer = AnsiRenderer::new(AnsiRendererOptions::default());
    let bitmap = Bitmap::new(0, 2468);
    let frame = renderer.frame(&bitmap, 10, 5000);
    let mut expected = String::from("\x1b[?25l\x1b[2J");
    for row in 1..=1234 {
        expected.push_str(&format!("\x1b[{};1H", row));
    }
    assert_eq!(frame, expected);
}

#[test]
fn same_color_is_not_set_twice() {
    let renderer = AnsiRenderer::new(AnsiRendererOptions { true_color: true });
    let mut bitmap = Bitmap::new(3, 4);
    bitmap.draw_rect(0, 0, 3, 4, Color::new(5, 6, 7));
    let frame = renderer.frame(&bitmap, 3, 4);
    let expected = [
        "\x1b[?25l",
        "\x1b[2J",
        "\x1b[1;1H",
        "\x1b[38;2;5;6;7m",
        "\x1b[48;2;5;6;7m",
        "\u{2580}\u{2580}\u{2580}",
        "\x1b[2;1H",
        "\u{2580}\u{2580}\u{2580}",
    ]
    .concat();
    assert_eq!(frame, expected);
}

#[test]
fn palette_levels_agree_with_floating_point() {
    let renderer = AnsiRenderer::new(AnsiRendererOptions::default());
    let mut bitmap = Bitmap::new(1, 2);
    for value in 0..=255u8 {
        let level = ((value as f64 / 256.0) * 5.0) as u8;
        bitmap.set(0, 0, Color::new(0, 0, value));
        bitmap.set(0, 1, Color::new(value, value, value));
        let frame = renderer.frame(&bitmap, 1, 2);
        let upper = 16 + level as u32;
        let lower = 16 + 43 * level as u32;
        assert_eq!(frame, format!("\x1b[?25l\x1b[2J\x1b[1;1H\x1b[38;5;{}m\x1b[48;5;{}m\u{2580}", upper, lower));
    }
}

#[test]
fn terminal_frame_needs_even_height_and_countable_rows() {
    assert!(AnsiRenderer::fits(&Bitmap::new(3, 4), 48));
    assert!(AnsiRenderer::fits(&Bitmap::new(3, 4), 3));
    assert!(AnsiRenderer::fits(&Bitmap::new(0, 0), 0));
    assert!(!AnsiRenderer::fits(&Bitmap::new(3, 5), 48));
    assert!(!AnsiRenderer::fits(&Bitmap::new(3, 5), 2));
    assert!(AnsiRenderer::fits(&Bitmap::new(0, 131070), usize::MAX));
    assert!(!AnsiRenderer::fits(&Bitmap::new(0, 131072), usize::MAX));
    assert!(AnsiRenderer::fits(&Bitmap::new(0, 131072), 131070));
    assert!(AnsiRenderer::fits(&Bitmap::new(0, 131072), 131069));
    assert!(!AnsiRenderer::fits(&Bitmap::new(0, 131072), 131071));
}

#[test]
fn framebuffer_frame_needs_room_for_pixels() {
    assert!(FramebufferRenderer::fits(12, 2, 4));
    assert!(FramebufferRenderer::fits(6, 5, 3));
    assert!(FramebufferRenderer::fits(7, 1, 4));
    assert!(FramebufferRenderer::fits(8, 0, 0));
    assert!(FramebufferRenderer::fits(u32::MAX, 1, 3));
    assert!(FramebufferRenderer::fits(65536, 65535, 4));
    assert!(!FramebufferRenderer::fits(0, 0, 4));
    assert!(!FramebufferRenderer::fits(0, 2, 4));
    assert!(!FramebufferRenderer::fits(8, 2, 0));
    assert!(!FramebufferRenderer::fits(8, 2, 2));
    assert!(!FramebufferRenderer::fits(9, 2, 4));
    assert!(!FramebufferRenderer::fits(10, 2, 4));
    assert!(!FramebufferRenderer::fits(65536, 65536, 4));
    assert!(!FramebufferRenderer::fits(u32::MAX, 2, 3));
}
