//! What holds of settings.
use vstd::prelude::*;
use vstd::utf8::is_ascii_chars;

use super::names::{has_extension, law_extension, law_no_extension};
use super::numbers::{law_lower_case, spells};
use crate::config::{
    format_from_str, hex_byte, hex_color, hex_value, image_format, image_format_named,
    is_format_for, match_format, parse_aamethod, parse_format, parse_hex_color, parse_rgb,
    parse_rgba, without_hash, AAMethod, Arguments, Channel, Config, HexError, ImageFormat, Rgb,
    Rgba,
};
use crate::files::{is_extension, is_found, string_view};
use crate::text::{ascii_lowercase, lowercase};

verus! {

// ---------------------------------------------------------------------------
// Colors
// ---------------------------------------------------------------------------

/// Whether a character is a hexadecimal digit for a number.
pub open spec fn stands_for(c: char, number: int) -> bool {
    ||| 0 <= number < 10 && c as int == 48 + number
    ||| 10 <= number < 16 && (c as int == 97 + number - 10 || c as int == 65 + number - 10)
}

/// Whether a color is the bytes in order, each as the digit for its sixteens and the digit for
/// its ones. There may be a `#` in front.
pub open spec fn writes(color: Seq<char>, bytes: Seq<u8>) -> bool {
    let start: int = if color.len() > 0 && color[0] == '#' {
        1
    } else {
        0
    };
    &&& color.len() == start + 2 * bytes.len()
    &&& forall|i: int|
        0 <= i < bytes.len() ==> stands_for(color[start + 2 * i], (#[trigger] bytes[i]) as int / 16)
            && stands_for(color[start + 2 * i + 1], bytes[i] as int % 16)
}

proof fn lemma_digit(c: char, d: int)
    requires
        0 <= d,
    ensures
        (hex_value(c) is Some && hex_value(c)->0 == d) <==> stands_for(c, d),
        hex_value(c) matches Some(v) ==> v < 16,
{
}

/// A color has the bytes that it writes, channel by channel, and no others.
pub proof fn law_hex_color(color: Seq<char>, n: int, bytes: Seq<u8>)
    requires
        n >= 0,
    ensures
        hex_color(color, n) == Some(bytes) <==> bytes.len() == n && writes(color, bytes),
{
    let hex = without_hash(color);
    let start: int = if color.len() > 0 && color[0] == '#' {
        1
    } else {
        0
    };
    assert(hex.len() == color.len() - start);
    assert forall|k: int| 0 <= k < hex.len() implies #[trigger] hex[k] == color[start + k] by {
    }
    if bytes.len() == n && writes(color, bytes) {
        assert forall|k: int| 0 <= k < hex.len() implies hex_value(#[trigger] hex[k]) is Some by {
            let b = bytes[k / 2];
            if k % 2 == 0 {
                assert(color[start + 2 * (k / 2)] == hex[k]);
                lemma_digit(hex[k], b as int / 16);
            } else {
                assert(color[start + 2 * (k / 2) + 1] == hex[k]);
                lemma_digit(hex[k], b as int % 16);
            }
        }
        let made = Seq::new(n as nat, |i: int| hex_byte(hex, i) as u8);
        assert forall|i: int| 0 <= i < n implies made[i] == bytes[i] by {
            let b = bytes[i];
            lemma_digit(hex[2 * i], b as int / 16);
            lemma_digit(hex[2 * i + 1], b as int % 16);
        }
        assert(made =~= bytes);
    }
    if hex_color(color, n) == Some(bytes) {
        assert forall|i: int| 0 <= i < bytes.len() implies stands_for(
            color[start + 2 * i],
            (#[trigger] bytes[i]) as int / 16,
        ) && stands_for(color[start + 2 * i + 1], bytes[i] as int % 16) by {
            let high = hex_value(hex[2 * i]);
            let low = hex_value(hex[2 * i + 1]);
            assert(high is Some && low is Some);
            lemma_digit(hex[2 * i], high->0 as int);
            lemma_digit(hex[2 * i + 1], low->0 as int);
            assert(bytes[i] == (16 * high->0 + low->0) as u8);
        }
    }
}

/// A color is read as the bytes that it writes, if there are so many, and refused otherwise.
pub proof fn law_parse_hex_color(color: &str, n: usize, r: Result<Vec<u8>, HexError>)
    requires
        call_ensures(parse_hex_color, (color, n), r),
        2 * n <= usize::MAX,
    ensures
        r matches Ok(bytes) ==> bytes@.len() == n && writes(color@, bytes@),
        r matches Err(e) ==> e.digits == 2 * n && forall|bytes: Seq<u8>|
            bytes.len() == n ==> !#[trigger] writes(color@, bytes),
{
    if let Ok(bytes) = r {
        law_hex_color(color@, n as int, bytes@);
    }
    assert forall|bytes: Seq<u8>| bytes.len() == n && #[trigger] writes(
        color@,
        bytes,
    ) implies hex_color(color@, n as int) is Some by {
        law_hex_color(color@, n as int, bytes);
    }
}

/// Six digits are red, green and blue, in this order, each of them so many 255ths.
pub proof fn law_rgb(color: &str, r: Result<Rgb, HexError>)
    requires
        call_ensures(parse_rgb, (color,), r),
    ensures
        r matches Ok(c) ==> writes(color@, seq![c.r.numerator, c.g.numerator, c.b.numerator])
            && c.r.denominator == 255 && c.g.denominator == 255 && c.b.denominator == 255,
        r matches Err(e) ==> e.digits == 6 && forall|bytes: Seq<u8>|
            bytes.len() == 3 ==> !#[trigger] writes(color@, bytes),
{
    if let Some(bytes) = hex_color(color@, 3) {
        law_hex_color(color@, 3, bytes);
        assert(bytes =~= seq![bytes[0], bytes[1], bytes[2]]);
    }
    assert forall|bytes: Seq<u8>| bytes.len() == 3 && #[trigger] writes(
        color@,
        bytes,
    ) implies hex_color(color@, 3) is Some by {
        law_hex_color(color@, 3, bytes);
    }
}

/// Eight digits are red, green, blue and alpha, in this order, each of them so many 255ths.
pub proof fn law_rgba(color: &str, r: Result<Rgba, HexError>)
    requires
        call_ensures(parse_rgba, (color,), r),
    ensures
        r matches Ok(c) ==> writes(
            color@,
            seq![c.r.numerator, c.g.numerator, c.b.numerator, c.a.numerator],
        ) && c.r.denominator == 255 && c.g.denominator == 255 && c.b.denominator == 255
            && c.a.denominator == 255,
        r matches Err(e) ==> e.digits == 8 && forall|bytes: Seq<u8>|
            bytes.len() == 4 ==> !#[trigger] writes(color@, bytes),
{
    if let Some(bytes) = hex_color(color@, 4) {
        law_hex_color(color@, 4, bytes);
        assert(bytes =~= seq![bytes[0], bytes[1], bytes[2], bytes[3]]);
    }
    assert forall|bytes: Seq<u8>| bytes.len() == 4 && #[trigger] writes(
        color@,
        bytes,
    ) implies hex_color(color@, 4) is Some by {
        law_hex_color(color@, 4, bytes);
    }
}

// ---------------------------------------------------------------------------
// Image formats
// ---------------------------------------------------------------------------

/// Whether a text spells the name of an image format, in upper or lower case.
pub open spec fn names_format(s: Seq<char>, format: ImageFormat) -> bool {
    match format {
        ImageFormat::Png => spells(s, seq!['p', 'n', 'g']),
        ImageFormat::Jpeg => spells(s, seq!['j', 'p', 'e', 'g']) || spells(s, seq!['j', 'p', 'g']),
        ImageFormat::Gif => spells(s, seq!['g', 'i', 'f']),
        ImageFormat::Ico => spells(s, seq!['i', 'c', 'o']),
        ImageFormat::Bmp => spells(s, seq!['b', 'm', 'p']),
    }
}

/// Whether a text in lower case is the name of an image format.
pub open spec fn is_format_name(lower: Seq<char>, format: ImageFormat) -> bool {
    match format {
        ImageFormat::Png => lower == seq!['p', 'n', 'g'],
        ImageFormat::Jpeg => lower == seq!['j', 'p', 'e', 'g'] || lower == seq!['j', 'p', 'g'],
        ImageFormat::Gif => lower == seq!['g', 'i', 'f'],
        ImageFormat::Ico => lower == seq!['i', 'c', 'o'],
        ImageFormat::Bmp => lower == seq!['b', 'm', 'p'],
    }
}

proof fn lemma_format_name(lower: Seq<char>, format: ImageFormat)
    ensures
        image_format(lower) == Some(format) <==> is_format_name(lower, format),
{
    reveal_strlit("png");
    reveal_strlit("jpeg");
    reveal_strlit("jpg");
    reveal_strlit("gif");
    reveal_strlit("ico");
    reveal_strlit("bmp");
    assert("png"@ =~= seq!['p', 'n', 'g']);
    assert("jpeg"@ =~= seq!['j', 'p', 'e', 'g']);
    assert("jpg"@ =~= seq!['j', 'p', 'g']);
    assert("gif"@ =~= seq!['g', 'i', 'f']);
    assert("ico"@ =~= seq!['i', 'c', 'o']);
    assert("bmp"@ =~= seq!['b', 'm', 'p']);
    assert("png"@[0] == 'p' && "jpg"@[0] == 'j' && "gif"@[0] == 'g' && "ico"@[0] == 'i' && "bmp"@[0]
        == 'b');
    assert("png"@.len() == 3 && "jpeg"@.len() == 4 && "jpg"@.len() == 3 && "gif"@.len() == 3
        && "ico"@.len() == 3 && "bmp"@.len() == 3);
}

proof fn lemma_named(s: Seq<char>, format: ImageFormat)
    ensures
        image_format(ascii_lowercase(s)) == Some(format) <==> names_format(s, format),
{
    lemma_format_name(ascii_lowercase(s), format);
    law_lower_case(s, seq!['p', 'n', 'g']);
    law_lower_case(s, seq!['j', 'p', 'e', 'g']);
    law_lower_case(s, seq!['j', 'p', 'g']);
    law_lower_case(s, seq!['g', 'i', 'f']);
    law_lower_case(s, seq!['i', 'c', 'o']);
    law_lower_case(s, seq!['b', 'm', 'p']);
}

/// A format is the one that its name spells, and other names of ASCII characters are refused.
pub proof fn law_parse_format(name: &str, r: Result<ImageFormat, String>, format: ImageFormat)
    requires
        call_ensures(parse_format, (name,), r),
        is_ascii_chars(name@),
    ensures
        r == Ok::<_, String>(format) <==> names_format(name@, format),
        r matches Err(message) ==> message@
            == "supported formats are PNG, JPEG, GIF, ICO and BMP"@,
{
    lemma_named(name@, format);
}

/// An extension of ASCII characters is the format that it spells, or PNG if it spells none.
pub proof fn law_match_format(name: &str, r: ImageFormat, format: ImageFormat)
    requires
        call_ensures(match_format, (name,), r),
        is_ascii_chars(name@),
    ensures
        names_format(name@, format) ==> r == format,
        r == ImageFormat::Png || names_format(name@, r),
{
    lemma_named(name@, format);
    lemma_named(name@, r);
}

/// Every name, of whatever characters, is read in lower case.
pub proof fn law_format_in_lower_case(
    name: &str,
    parsed: Result<ImageFormat, String>,
    matched: ImageFormat,
    named: Option<ImageFormat>,
    lower: &str,
    from_lower: Option<ImageFormat>,
    format: ImageFormat,
)
    requires
        call_ensures(parse_format, (name,), parsed),
        call_ensures(match_format, (name,), matched),
        call_ensures(format_from_str, (name,), named),
        call_ensures(image_format_named, (lower,), from_lower),
    ensures
        parsed == Ok::<_, String>(format) <==> is_format_name(lowercase(name@), format),
        named == Some(format) <==> is_format_name(lowercase(name@), format),
        from_lower == Some(format) <==> is_format_name(lower@, format),
        is_format_name(lowercase(name@), format) ==> matched == format,
        matched == ImageFormat::Png || is_format_name(lowercase(name@), matched),
{
    lemma_format_name(lowercase(name@), format);
    lemma_format_name(lowercase(name@), matched);
    lemma_format_name(lower@, format);
}

/// Smoothing is called `none` or `fxaa`, in lower case.
pub proof fn law_aamethod(name: &str, r: Option<AAMethod>)
    requires
        call_ensures(parse_aamethod, (name,), r),
    ensures
        r == Some(AAMethod::Off) <==> name@ == seq!['n', 'o', 'n', 'e'],
        r == Some(AAMethod::FXAA) <==> name@ == seq!['f', 'x', 'a', 'a'],
{
    reveal_strlit("none");
    reveal_strlit("fxaa");
    assert("none"@ =~= seq!['n', 'o', 'n', 'e']);
    assert("fxaa"@ =~= seq!['f', 'x', 'a', 'a']);
    assert(seq!['n', 'o', 'n', 'e'][0] != seq!['f', 'x', 'a', 'a'][0]);
}

// ---------------------------------------------------------------------------
// Settings
// ---------------------------------------------------------------------------

/// Whether a channel is so many hundredths of full intensity.
pub open spec fn is_percent(c: Channel, n: int) -> bool {
    c.numerator as int * 100 == n * c.denominator as int && c.denominator > 0
}

/// What the command line says is what is set, each thing by itself. A size is that of both sides.
/// What it does not say is a blue material on a transparent background, smooth edges, and 1024 by
/// 768 points.
pub proof fn law_settings(arguments: Arguments, c: Config)
    requires
        call_ensures(Config::new, (arguments,), c),
    ensures
        c.model_filename@ == arguments.model_file@,
        c.img_filename@ == arguments.img_file@,
        arguments.format matches Some(format) ==> c.format == format,
        arguments.size matches Some(size) ==> c.width == size && c.height == size,
        arguments.size is None ==> c.width == 1024 && c.height == 768,
        c.visible == arguments.visible,
        c.verbosity == arguments.verbosity,
        arguments.material matches Some(material) ==> c.material == material,
        arguments.material is None ==> {
            let m = c.material;
            &&& is_percent(m.ambient.r, 0) && is_percent(m.ambient.g, 13) && is_percent(
                m.ambient.b,
                26,
            )
            &&& is_percent(m.diffuse.r, 38) && is_percent(m.diffuse.g, 63) && is_percent(
                m.diffuse.b,
                100,
            )
            &&& is_percent(m.specular.r, 100) && is_percent(m.specular.g, 100) && is_percent(
                m.specular.b,
                100,
            )
        },
        arguments.background matches Some(background) ==> c.background == background,
        arguments.background is None ==> {
            let b = c.background;
            is_percent(b.r, 0) && is_percent(b.g, 0) && is_percent(b.b, 0) && is_percent(b.a, 0)
        },
        arguments.aamethod matches Some(aamethod) ==> c.aamethod == aamethod,
        arguments.aamethod is None ==> c.aamethod == AAMethod::FXAA,
        c.recalc_normals == arguments.recalc_normals,
{
}

/// Where the command line names no format, the image has the one that the extension of its file
/// spells, or PNG if it spells none.
pub proof fn law_image_extension(
    arguments: Arguments,
    c: Config,
    directory: Seq<char>,
    name: Seq<char>,
    extension: Seq<char>,
    format: ImageFormat,
)
    requires
        call_ensures(Config::new, (arguments,), c),
        arguments.format is None,
        has_extension(arguments.img_file@, directory, name, extension),
    ensures
        is_ascii_chars(extension) ==> {
            &&& names_format(extension, format) ==> c.format == format
            &&& c.format == ImageFormat::Png || names_format(extension, c.format)
        },
        is_format_name(lowercase(extension), format) ==> c.format == format,
        c.format == ImageFormat::Png || is_format_name(lowercase(extension), c.format),
{
    let found = choose|found: Option<Seq<char>>| #[trigger]
        is_extension(arguments.img_file@, found) && is_format_for(
            arguments.format,
            found,
            c.format,
        );
    law_extension(arguments.img_file@, directory, name, extension, found);
    lemma_named(extension, format);
    lemma_named(extension, c.format);
    lemma_format_name(lowercase(extension), format);
    lemma_format_name(lowercase(extension), c.format);
}

/// Whatever the system finds as the extension of the image file is read in lower case, and decides
/// where the command line names no format.
pub proof fn law_image_found(arguments: Arguments, c: Config)
    requires
        call_ensures(Config::new, (arguments,), c),
        arguments.format is None,
    ensures
        exists|path: &str, e: Option<String>|
            path@ == arguments.img_file@ && #[trigger] is_found(path, e) && match e {
                Some(e) => if exists|f: ImageFormat| is_format_name(lowercase(e@), f) {
                    is_format_name(lowercase(e@), c.format)
                } else {
                    c.format == ImageFormat::Png
                },
                None => c.format == ImageFormat::Png,
            },
{
    let (path, e) = choose|path: &str, e: Option<String>|
        path@ == arguments.img_file@ && #[trigger] is_found(path, e) && is_format_for(
            None,
            string_view(e),
            c.format,
        );
    assert(is_found(path, e));
    if let Some(e) = e {
        lemma_format_name(lowercase(e@), c.format);
        if exists|f: ImageFormat| is_format_name(lowercase(e@), f) {
            let f = choose|f: ImageFormat| is_format_name(lowercase(e@), f);
            lemma_format_name(lowercase(e@), f);
        }
    }
}

/// Where the command line names no format and the image file has no extension, the image is a PNG.
pub proof fn law_image_without_extension(
    arguments: Arguments,
    c: Config,
    directory: Seq<char>,
    name: Seq<char>,
)
    requires
        call_ensures(Config::new, (arguments,), c),
        arguments.format is None,
        arguments.img_file@ == directory + name,
        directory.len() > 0 ==> directory.last() == '/',
        name.len() > 0,
        name != seq!['.'],
        name[0] != '/',
        forall|i: int| 1 <= i < name.len() ==> #[trigger] name[i] != '/' && name[i] != '.',
        forall|i: int|
            0 <= i < arguments.img_file@.len() ==> #[trigger] arguments.img_file@[i] != '\\'
                && arguments.img_file@[i] != ':',
        !(arguments.img_file@.len() > 1 && arguments.img_file@[0] == '/' && arguments.img_file@[1]
            == '/'),
    ensures
        c.format == ImageFormat::Png,
{
    let found = choose|found: Option<Seq<char>>| #[trigger]
        is_extension(arguments.img_file@, found) && is_format_for(
            arguments.format,
            found,
            c.format,
        );
    law_no_extension(arguments.img_file@, directory, name, found);
}

/// The settings that nothing was said of are those of a command line that says nothing.
pub proof fn law_defaults(c: Config)
    requires
        call_ensures(<Config as Default>::default, (), c),
    ensures
        c.model_filename@.len() == 0,
        c.img_filename@.len() == 0,
        c.format == ImageFormat::Png,
        c.width == 1024,
        c.height == 768,
        !c.visible,
        c.verbosity == 0,
        c.aamethod == AAMethod::FXAA,
        !c.recalc_normals,
        is_percent(c.material.ambient.r, 0),
        is_percent(c.material.ambient.g, 13),
        is_percent(c.material.ambient.b, 26),
        is_percent(c.material.diffuse.r, 38),
        is_percent(c.material.diffuse.g, 63),
        is_percent(c.material.diffuse.b, 100),
        is_percent(c.material.specular.r, 100),
        is_percent(c.material.specular.g, 100),
        is_percent(c.material.specular.b, 100),
        is_percent(c.background.r, 0),
        is_percent(c.background.g, 0),
        is_percent(c.background.b, 0),
        is_percent(c.background.a, 0),
{
    reveal_strlit("");
}

} // verus!
