use hestia::display::{
    file_size, oklch_parts, push_decimal, read_tag_color, TagColorError, TagColorInput,
};

#[test]
fn custom_color_formats_and_contrast() {
    for (text, expected) in [
        ("", None),
        ("  ", None),
        (" #aBc ", Some(0x00aa_bbcc)),
        ("123456", Some(0x0012_3456)),
        ("#000000", Some(0)),
    ] {
        let read = read_tag_color(text);
        match expected {
            None => assert_eq!(read, Ok(TagColorInput::Unset), "{text}"),
            Some(rgb) => assert_eq!(read, Ok(TagColorInput::Rgb(rgb)), "{text}"),
        }
    }
    for (text, body) in [
        ("oklch(0 0 0)", "0 0 0"),
        ("OKLCH(100% 0 0)", "100% 0 0"),
        ("oklch(50% 0 250deg)", "50% 0 250deg"),
        ("oklch(0.627955 0.257683 29.2339)", "0.627955 0.257683 29.2339"),
        ("oklch()", ""),
        ("oklch(1 0)", "1 0"),
    ] {
        assert_eq!(
            read_tag_color(text),
            Ok(TagColorInput::Oklch(body.to_string())),
            "{text}"
        );
    }
    for text in ["#12", "#gggggg", "#12345678", "#abcé", "oklch(1 0 0) junk"] {
        assert!(read_tag_color(text).is_err(), "{text}");
    }
}

#[test]
fn color_errors_explain_the_accepted_forms() {
    assert_eq!(read_tag_color("#12"), Err(TagColorError));
    assert_eq!(
        TagColorError.message(),
        "Enter #RGB, #RRGGBB or oklch(L C H), without transparency."
    );
    assert_eq!(read_tag_color("#FFFFFF"), Ok(TagColorInput::Rgb(0x00ff_ffff)));
    assert_eq!(read_tag_color("\t#f0a\n"), Ok(TagColorInput::Rgb(0x00ff_00aa)));
    assert_eq!(read_tag_color("##abc"), Err(TagColorError));
    assert_eq!(read_tag_color("oklch("), Err(TagColorError));
}

#[test]
fn sizes_read_as_bytes_then_kilobytes() {
    assert_eq!(file_size(0), "0 B");
    assert_eq!(file_size(1023), "1023 B");
    assert_eq!(file_size(1024), "1.0 KB");
    assert_eq!(file_size(1536), "1.5 KB");
    assert_eq!(file_size(1280), "1.2 KB");
    assert_eq!(file_size(10 * 1024 * 1024), "10240.0 KB");
}

#[test]
fn sizes_match_the_floating_point_label() {
    let mut samples: Vec<usize> = (0..5000).collect();
    samples.extend([1280, 1331, 1332, 2_000_000, 123_456_789, (1 << 53) - 1]);
    for shift in 53..64 {
        let base = 1usize << shift;
        samples.extend([base - 1, base, base + 1, base + (1 << (shift - 53)), base + 3 * (1 << (shift - 54))]);
        samples.extend([base | (base >> 1) | 1, base + (base >> 7) + 12345]);
    }
    samples.extend([usize::MAX, usize::MAX - 1, usize::MAX - 2048, usize::MAX / 3]);
    for bytes in samples {
        let expected = if bytes < 1024 {
            format!("{bytes} B")
        } else {
            format!("{:.1} KB", bytes as f64 / 1024.)
        };
        assert_eq!(file_size(bytes), expected, "{bytes}");
    }
}

#[test]
fn decimals_have_no_leading_zeros() {
    let mut out = String::from("n=");
    push_decimal(&mut out, 0);
    assert_eq!(out, "n=0");
    let mut out = String::new();
    push_decimal(&mut out, u64::MAX);
    assert_eq!(out, u64::MAX.to_string());
}

#[test]
fn colors_are_shown_as_six_uppercase_digits() {
    for color in [0u32, 0x00ab_cdef, 0x0012_3456, 0x00ff_ffff, 0xf, 0x0100_0000, u32::MAX] {
        assert_eq!(hestia::display::color_hex(color), format!("#{color:06X}"));
    }
    assert_eq!(hestia::display::color_hex(0x0012_3456), "#123456");
}

#[test]
fn shown_colors_read_back() {
    for color in [0u32, 0x00ab_cdef, 0x0012_3456, 0x00ff_ffff, 0xf] {
        assert_eq!(
            read_tag_color(&hestia::display::color_hex(color)),
            Ok(TagColorInput::Rgb(color))
        );
    }
}

#[test]
fn shown_digits_read_back_in_either_case() {
    for color in [0u32, 0x0012_3456, 0x00ab_cdef, 0x00ff_ffff] {
        let upper = format!("{color:06X}");
        let lower = format!("{color:06x}");
        assert_eq!(read_tag_color(&upper), Ok(TagColorInput::Rgb(color)));
        assert_eq!(read_tag_color(&lower), Ok(TagColorInput::Rgb(color)));
        assert_eq!(read_tag_color(&format!("#{color:06X}")), Ok(TagColorInput::Rgb(color)));
    }
    for text in ["  #AbC  ", "oklch(0.7 0.1 20)", "#12345g", " fff"] {
        let spaced = read_tag_color(text);
        assert_eq!(read_tag_color(text.trim()), spaced);
        assert_eq!(read_tag_color(&text.trim().to_ascii_uppercase()), spaced);
    }
    assert_eq!(read_tag_color("FFF"), Ok(TagColorInput::Rgb(0x00ff_ffff)));
}

#[test]
fn oklch_bodies_split_into_three_numbers() {
    let parts = oklch_parts(" 70%  50% 250deg ").unwrap();
    assert_eq!((parts.lightness.as_str(), parts.lightness_percent), ("70", true));
    assert_eq!((parts.chroma.as_str(), parts.chroma_percent), ("50", true));
    assert_eq!(parts.hue, "250");
    let plain = oklch_parts("0.7 0.2 610").unwrap();
    assert_eq!((plain.lightness.as_str(), plain.lightness_percent), ("0.7", false));
    assert_eq!((plain.chroma.as_str(), plain.chroma_percent), ("0.2", false));
    assert_eq!(plain.hue, "610");
    assert!(oklch_parts("").is_none());
    assert!(oklch_parts("1 0").is_none());
    assert!(oklch_parts("0.5 0.1 20 / 0.5").is_none());
}
