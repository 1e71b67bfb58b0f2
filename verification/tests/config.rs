use stl_thumb::config::{
    format_from_str, image_format_named, match_format, parse_aamethod, parse_format,
    parse_hex_color, parse_rgb, parse_rgba, AAMethod, Arguments, Channel, Config, HexError,
    ImageFormat, Material, Rgb, Rgba,
};

fn value(c: Channel) -> f32 {
    c.numerator as f32 / c.denominator as f32
}

fn rgb(c: Rgb) -> [f32; 3] {
    [value(c.r), value(c.g), value(c.b)]
}

fn rgba(c: Rgba) -> (f32, f32, f32, f32) {
    (value(c.r), value(c.g), value(c.b), value(c.a))
}

fn arguments(img_file: &str) -> Arguments {
    Arguments {
        model_file: "model.stl".to_string(),
        img_file: img_file.to_string(),
        format: None,
        size: None,
        visible: false,
        verbosity: 0,
        material: None,
        background: None,
        aamethod: None,
        recalc_normals: false,
    }
}

#[test]
fn parses_hex_colors() {
    assert_eq!(parse_rgb("ff0080").map(rgb), Ok([1.0, 0.0, 128.0 / 255.0]));
    assert_eq!(parse_rgb("#FF0080").map(rgb), Ok([1.0, 0.0, 128.0 / 255.0]));
    assert_eq!(parse_rgba("000000ff").map(rgba), Ok((0.0, 0.0, 0.0, 1.0)));
}

#[test]
fn rejects_bad_hex_colors() {
    assert!(parse_rgb("fff").is_err());
    assert!(parse_rgb("ff00zz").is_err());
    assert!(parse_rgb("+f+f+f").is_err());
    assert!(parse_rgb("ff00ëë").is_err());
    assert!(parse_rgba("ff0080").is_err());
}

#[test]
fn parses_formats() {
    assert_eq!(parse_format("PNG"), Ok(ImageFormat::Png));
    assert_eq!(parse_format("jpg"), Ok(ImageFormat::Jpeg));
    assert!(parse_format("webp").is_err());
}

#[test]
fn bad_colors_say_how_many_digits_were_expected() {
    assert_eq!(parse_rgb("##ff0080"), Err(HexError { digits: 6 }));
    assert_eq!(parse_rgba("#ff0080"), Err(HexError { digits: 8 }));
    assert_eq!(parse_rgb(""), Err(HexError { digits: 6 }));
}

#[test]
fn colors_ignore_case_and_hash() {
    assert_eq!(parse_rgb("abcdef"), parse_rgb("#ABCDEF"));
    assert_eq!(parse_hex_color("0aF", 1), Err(HexError { digits: 2 }));
    assert_eq!(parse_hex_color("aF", 1), Ok(vec![0xaf]));
    assert_eq!(parse_hex_color("#", 0), Ok(vec![]));
}

#[test]
fn every_image_format_has_its_names() {
    assert_eq!(format_from_str("png"), Some(ImageFormat::Png));
    assert_eq!(format_from_str("JPEG"), Some(ImageFormat::Jpeg));
    assert_eq!(format_from_str("Jpg"), Some(ImageFormat::Jpeg));
    assert_eq!(format_from_str("gif"), Some(ImageFormat::Gif));
    assert_eq!(format_from_str("ico"), Some(ImageFormat::Ico));
    assert_eq!(format_from_str("BMP"), Some(ImageFormat::Bmp));
    assert_eq!(format_from_str(""), None);
    // Names are only taken in lower case here.
    assert_eq!(image_format_named("PNG"), None);
    assert_eq!(image_format_named("gif"), Some(ImageFormat::Gif));
    assert_eq!(match_format("webp"), ImageFormat::Png);
    assert_eq!(match_format("ICO"), ImageFormat::Ico);
    assert_eq!(
        parse_format("webp"),
        Err("supported formats are PNG, JPEG, GIF, ICO and BMP".to_string())
    );
}

#[test]
fn anti_aliasing_methods_have_names() {
    assert_eq!(parse_aamethod("none"), Some(AAMethod::Off));
    assert_eq!(parse_aamethod("fxaa"), Some(AAMethod::FXAA));
    assert_eq!(parse_aamethod("FXAA"), None);
}

#[test]
fn default_settings() {
    let c = Config::default();
    assert_eq!(c.model_filename, "");
    assert_eq!(c.img_filename, "");
    assert_eq!(c.format, ImageFormat::Png);
    assert_eq!((c.width, c.height), (1024, 768));
    assert!(!c.visible);
    assert_eq!(c.verbosity, 0);
    assert_eq!(rgb(c.material.ambient), [0.00, 0.13, 0.26]);
    assert_eq!(rgb(c.material.diffuse), [0.38, 0.63, 1.00]);
    assert_eq!(rgb(c.material.specular), [1.00, 1.00, 1.00]);
    assert_eq!(rgba(c.background), (0.0, 0.0, 0.0, 0.0));
    assert_eq!(c.aamethod, AAMethod::FXAA);
    assert!(!c.recalc_normals);
}

#[test]
fn settings_from_few_arguments_are_the_default_ones() {
    let c = Config::new(arguments("out"));
    assert_eq!(c.model_filename, "model.stl");
    assert_eq!(c.img_filename, "out");
    assert_eq!(c.format, ImageFormat::Png);
    assert_eq!((c.width, c.height), (1024, 768));
    assert_eq!(c.aamethod, AAMethod::FXAA);
    assert_eq!(rgb(c.material.diffuse), [0.38, 0.63, 1.00]);
}

#[test]
fn the_extension_says_the_image_format_unless_it_is_given() {
    assert_eq!(Config::new(arguments("dir.gif/out.JPG")).format, ImageFormat::Jpeg);
    assert_eq!(Config::new(arguments("out.webp")).format, ImageFormat::Png);
    assert_eq!(Config::new(arguments(".bmp")).format, ImageFormat::Png);
    let mut given = arguments("out.jpg");
    given.format = Some(ImageFormat::Bmp);
    assert_eq!(Config::new(given).format, ImageFormat::Bmp);
}

#[test]
fn settings_from_many_arguments() {
    let white = parse_rgb("ffffff").unwrap();
    let black = parse_rgb("000000").unwrap();
    let material = Material { ambient: black, diffuse: white, specular: black };
    let background = parse_rgba("ff000080").unwrap();
    let c = Config::new(Arguments {
        model_file: "-".to_string(),
        img_file: "-".to_string(),
        format: None,
        size: Some(256),
        visible: true,
        verbosity: 3,
        material: Some(material),
        background: Some(background),
        aamethod: Some(AAMethod::Off),
        recalc_normals: true,
    });
    // A size makes the image square.
    assert_eq!((c.width, c.height), (256, 256));
    assert!(c.visible);
    assert_eq!(c.verbosity, 3);
    assert_eq!(c.material, material);
    assert_eq!(c.background, background);
    assert_eq!(c.aamethod, AAMethod::Off);
    assert!(c.recalc_normals);
}
