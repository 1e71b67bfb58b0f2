//! Settings.
use vstd::prelude::*;
use vstd::utf8::is_ascii_chars;

use crate::files::{found_extension, is_extension, is_found, string_view};
use crate::text;
use crate::text::{ascii_lowercase, lowercase};

verus! {

/// How edges are smoothed.
#[derive(Clone, Copy, PartialEq, Eq, Structural, Debug)]
pub enum AAMethod {
    /// Not at all.
    Off,
    /// Fast approximate anti-aliasing.
    FXAA,
}

/// The formats of image files.
#[derive(Clone, Copy, PartialEq, Eq, Structural, Debug)]
pub enum ImageFormat {
    Png,
    Jpeg,
    Gif,
    Ico,
    Bmp,
}

/// A channel of a color: a fraction of full intensity.
#[derive(Clone, Copy, PartialEq, Eq, Structural, Debug)]
pub struct Channel {
    pub numerator: u8,
    pub denominator: u8,
}

/// A color.
#[derive(Clone, Copy, PartialEq, Eq, Structural, Debug)]
pub struct Rgb {
    pub r: Channel,
    pub g: Channel,
    pub b: Channel,
}

/// A color with transparency.
#[derive(Clone, Copy, PartialEq, Eq, Structural, Debug)]
pub struct Rgba {
    pub r: Channel,
    pub g: Channel,
    pub b: Channel,
    pub a: Channel,
}

/// The colors of the Phong reflection model.
#[derive(Clone, Copy, PartialEq, Eq, Structural, Debug)]
pub struct Material {
    pub ambient: Rgb,
    pub diffuse: Rgb,
    pub specular: Rgb,
}

/// The settings.
pub struct Config {
    pub model_filename: String,
    pub img_filename: String,
    pub format: ImageFormat,
    pub width: u32,
    pub height: u32,
    pub visible: bool,
    pub verbosity: usize,
    pub material: Material,
    pub background: Rgba,
    pub aamethod: AAMethod,
    pub recalc_normals: bool,
}

// ---------------------------------------------------------------------------
// Defaults
// ---------------------------------------------------------------------------

/// So many hundredths of full intensity.
pub open spec fn hundredths(n: u8) -> Channel {
    Channel { numerator: n, denominator: 100 }
}

/// A blue material.
pub open spec fn default_material() -> Material {
    Material {
        ambient: Rgb { r: hundredths(0), g: hundredths(13), b: hundredths(26) },
        diffuse: Rgb { r: hundredths(38), g: hundredths(63), b: hundredths(100) },
        specular: Rgb { r: hundredths(100), g: hundredths(100), b: hundredths(100) },
    }
}

/// Fully transparent black.
pub open spec fn default_background() -> Rgba {
    Rgba { r: hundredths(0), g: hundredths(0), b: hundredths(0), a: hundredths(0) }
}

/// So many hundredths of full intensity.
fn percent(n: u8) -> (r: Channel)
    ensures
        r == hundredths(n),
{
    Channel { numerator: n, denominator: 100 }
}

impl Default for Config {
    fn default() -> (r: Self)
        ensures
            r.model_filename@ == ""@,
            r.img_filename@ == ""@,
            r.format == ImageFormat::Png,
            r.width == 1024,
            r.height == 768,
            !r.visible,
            r.verbosity == 0,
            r.material == default_material(),
            r.background == default_background(),
            r.aamethod == AAMethod::FXAA,
            !r.recalc_normals,
    {
        proof {
            reveal_strlit("");
        }
        Config {
            model_filename: String::new(),
            img_filename: String::new(),
            format: ImageFormat::Png,
            width: 1024,
            height: 768,
            visible: false,
            verbosity: 0,
            material: Material {
                ambient: Rgb { r: percent(0), g: percent(13), b: percent(26) },
                diffuse: Rgb { r: percent(38), g: percent(63), b: percent(100) },
                specular: Rgb { r: percent(100), g: percent(100), b: percent(100) },
            },
            background: Rgba { r: percent(0), g: percent(0), b: percent(0), a: percent(0) },
            aamethod: AAMethod::FXAA,
            recalc_normals: false,
        }
    }
}

// ---------------------------------------------------------------------------
// Image formats
// ---------------------------------------------------------------------------

/// The image format that a name in lower case stands for.
pub open spec fn image_format(name: Seq<char>) -> Option<ImageFormat> {
    if name == "png"@ {
        Some(ImageFormat::Png)
    } else if name == "jpeg"@ || name == "jpg"@ {
        Some(ImageFormat::Jpeg)
    } else if name == "gif"@ {
        Some(ImageFormat::Gif)
    } else if name == "ico"@ {
        Some(ImageFormat::Ico)
    } else if name == "bmp"@ {
        Some(ImageFormat::Bmp)
    } else {
        None
    }
}

/// The image format that a name in lower case stands for.
pub fn image_format_named(name: &str) -> (r: Option<ImageFormat>)
    ensures
        r == image_format(name@),
{
    if name.eq("png") {
        Some(ImageFormat::Png)
    } else if name.eq("jpeg") || name.eq("jpg") {
        Some(ImageFormat::Jpeg)
    } else if name.eq("gif") {
        Some(ImageFormat::Gif)
    } else if name.eq("ico") {
        Some(ImageFormat::Ico)
    } else if name.eq("bmp") {
        Some(ImageFormat::Bmp)
    } else {
        None
    }
}

/// The image format that a name in upper or lower case stands for.
pub fn format_from_str(ext: &str) -> (r: Option<ImageFormat>)
    ensures
        r == image_format(lowercase(ext@)),
        is_ascii_chars(ext@) ==> r == image_format(ascii_lowercase(ext@)),
{
    let lower = text::to_lowercase(ext);
    image_format_named(lower.as_str())
}

/// The image format, or PNG when there is none.
pub open spec fn or_png(format: Option<ImageFormat>) -> ImageFormat {
    match format {
        Some(format) => format,
        None => ImageFormat::Png,
    }
}

/// The image format that an extension stands for. PNG is used instead of an unsupported one.
pub fn match_format(ext: &str) -> (r: ImageFormat)
    ensures
        r == or_png(image_format(lowercase(ext@))),
        is_ascii_chars(ext@) ==> r == or_png(image_format(ascii_lowercase(ext@))),
{
    match format_from_str(ext) {
        Some(format) => format,
        None => ImageFormat::Png,
    }
}

/// The image format that a name stands for, or what names there are.
pub fn parse_format(format: &str) -> (r: Result<ImageFormat, String>)
    ensures
        match image_format(lowercase(format@)) {
            Some(f) => r == Ok::<_, String>(f),
            None => r matches Err(message) && message@
                == "supported formats are PNG, JPEG, GIF, ICO and BMP"@,
        },
        is_ascii_chars(format@) ==> match image_format(ascii_lowercase(format@)) {
            Some(f) => r == Ok::<_, String>(f),
            None => r is Err,
        },
{
    match format_from_str(format) {
        Some(f) => Ok(f),
        None => Err(text::owned("supported formats are PNG, JPEG, GIF, ICO and BMP")),
    }
}

/// The anti-aliasing method with a name.
pub fn parse_aamethod(name: &str) -> (r: Option<AAMethod>)
    ensures
        r == (if name@ == "none"@ {
            Some(AAMethod::Off)
        } else if name@ == "fxaa"@ {
            Some(AAMethod::FXAA)
        } else {
            None
        }),
{
    if name.eq("none") {
        Some(AAMethod::Off)
    } else if name.eq("fxaa") {
        Some(AAMethod::FXAA)
    } else {
        None
    }
}

// ---------------------------------------------------------------------------
// Colors
// ---------------------------------------------------------------------------

/// What a hexadecimal digit stands for.
pub open spec fn hex_value(c: char) -> Option<u8> {
    if '0' <= c <= '9' {
        Some((c as u32 - '0' as u32) as u8)
    } else if 'a' <= c <= 'f' {
        Some((c as u32 - 'a' as u32 + 10) as u8)
    } else if 'A' <= c <= 'F' {
        Some((c as u32 - 'A' as u32 + 10) as u8)
    } else {
        None
    }
}

/// A color without the `#` in front.
pub open spec fn without_hash(color: Seq<char>) -> Seq<char> {
    if color.len() > 0 && color[0] == '#' {
        color.skip(1)
    } else {
        color
    }
}

/// Whether a text is made of so many hexadecimal digits.
pub open spec fn is_hex(s: Seq<char>, digits: int) -> bool {
    s.len() == digits && forall|i: int| 0 <= i < s.len() ==> hex_value(#[trigger] s[i]) is Some
}

/// The byte that two hexadecimal digits stand for.
pub open spec fn hex_byte(s: Seq<char>, i: int) -> int {
    16 * hex_value(s[2 * i])->0 + hex_value(s[2 * i + 1])->0
}

/// The bytes of a hexadecimal color with `n` channels, such as `ff8800` or `#ff8800`.
pub open spec fn hex_color(color: Seq<char>, n: int) -> Option<Seq<u8>> {
    let hex = without_hash(color);
    if is_hex(hex, 2 * n) {
        Some(Seq::new(n as nat, |i: int| hex_byte(hex, i) as u8))
    } else {
        None
    }
}

/// A color that is not made of the hexadecimal digits that it has to be made of.
#[derive(Clone, Copy, PartialEq, Eq, Structural, Debug)]
pub struct HexError {
    /// How many digits were expected.
    pub digits: usize,
}

/// What a hexadecimal digit stands for.
fn hex_digit(c: char) -> (r: Option<u8>)
    ensures
        r == hex_value(c),
        r matches Some(d) ==> d < 16,
{
    if '0' <= c && c <= '9' {
        Some((c as u32 - '0' as u32) as u8)
    } else if 'a' <= c && c <= 'f' {
        Some((c as u32 - 'a' as u32 + 10) as u8)
    } else if 'A' <= c && c <= 'F' {
        Some((c as u32 - 'A' as u32 + 10) as u8)
    } else {
        None
    }
}

/// Parses a hex color such as `ff8800` (or `#ff8800`) into `n` channels, each of them a byte.
pub fn parse_hex_color(color: &str, n: usize) -> (r: Result<Vec<u8>, HexError>)
    requires
        2 * n <= usize::MAX,
    ensures
        match hex_color(color@, n as int) {
            Some(bytes) => r matches Ok(channels) && channels@ == bytes,
            None => r matches Err(error) && error.digits == 2 * n,
        },
{
    let cs = text::chars(color);
    let start: usize = if cs.len() > 0 && cs[0] == '#' {
        1
    } else {
        0
    };
    let ghost hex = without_hash(color@);
    assert(hex =~= cs@.skip(start as int));
    if cs.len() - start != 2 * n {
        return Err(HexError { digits: 2 * n });
    }
    let mut channels: Vec<u8> = Vec::new();
    for i in 0..n
        invariant
            2 * n <= usize::MAX,
            cs@ == color@,
            start <= 1,
            start + 2 * n == cs@.len(),
            hex == without_hash(color@),
            hex == cs@.skip(start as int),
            channels@.len() == i,
            forall|k: int| 0 <= k < 2 * i ==> hex_value(#[trigger] hex[k]) is Some,
            forall|k: int| 0 <= k < i ==> #[trigger] channels@[k] == hex_byte(hex, k) as u8,
    {
        let high = cs[start + 2 * i];
        let low = cs[start + 2 * i + 1];
        assert(high == hex[2 * i] && low == hex[2 * i + 1]);
        match (hex_digit(high), hex_digit(low)) {
            (Some(h), Some(l)) => {
                channels.push(16 * h + l);
            },
            _ => {
                assert(!is_hex(hex, 2 * n));
                return Err(HexError { digits: 2 * n });
            },
        }
    }
    assert(channels@ =~= Seq::new(n as nat, |i: int| hex_byte(hex, i) as u8));
    Ok(channels)
}

/// A byte as a fraction of full intensity.
pub open spec fn byte_channel(byte: u8) -> Channel {
    Channel { numerator: byte, denominator: 255 }
}

/// A byte as a fraction of full intensity.
fn channel(byte: u8) -> (r: Channel)
    ensures
        r == byte_channel(byte),
{
    Channel { numerator: byte, denominator: 255 }
}

/// Parses a hex color.
pub fn parse_rgb(color: &str) -> (r: Result<Rgb, HexError>)
    ensures
        match hex_color(color@, 3) {
            Some(b) => r == Ok::<_, HexError>(
                Rgb { r: byte_channel(b[0]), g: byte_channel(b[1]), b: byte_channel(b[2]) },
            ),
            None => r == Err::<Rgb, _>(HexError { digits: 6 }),
        },
{
    match parse_hex_color(color, 3) {
        Ok(b) => Ok(Rgb { r: channel(b[0]), g: channel(b[1]), b: channel(b[2]) }),
        Err(error) => Err(error),
    }
}

/// Parses a hex color with transparency.
pub fn parse_rgba(color: &str) -> (r: Result<Rgba, HexError>)
    ensures
        match hex_color(color@, 4) {
            Some(b) => r == Ok::<_, HexError>(
                Rgba {
                    r: byte_channel(b[0]),
                    g: byte_channel(b[1]),
                    b: byte_channel(b[2]),
                    a: byte_channel(b[3]),
                },
            ),
            None => r == Err::<Rgba, _>(HexError { digits: 8 }),
        },
{
    match parse_hex_color(color, 4) {
        Ok(b) => Ok(
            Rgba { r: channel(b[0]), g: channel(b[1]), b: channel(b[2]), a: channel(b[3]) },
        ),
        Err(error) => Err(error),
    }
}

// ---------------------------------------------------------------------------
// Settings from arguments
// ---------------------------------------------------------------------------

/// What the command line says.
pub struct Arguments {
    pub model_file: String,
    pub img_file: String,
    pub format: Option<ImageFormat>,
    pub size: Option<u32>,
    pub visible: bool,
    pub verbosity: u8,
    pub material: Option<Material>,
    pub background: Option<Rgba>,
    pub aamethod: Option<AAMethod>,
    pub recalc_normals: bool,
}

/// Whether a format is right for an image file whose extension is known: the one that was asked
/// for, or else the one that the extension stands for, or else PNG.
pub open spec fn is_format_for(
    asked: Option<ImageFormat>,
    extension: Option<Seq<char>>,
    format: ImageFormat,
) -> bool {
    format == match asked {
        Some(f) => f,
        None => match extension {
            Some(e) => or_png(image_format(lowercase(e))),
            None => ImageFormat::Png,
        },
    } && (asked is None ==> match extension {
        Some(e) => is_ascii_chars(e) ==> format == or_png(image_format(ascii_lowercase(e))),
        None => true,
    })
}

impl Config {
    /// The settings that the command line asks for. What it does not mention is as in the
    /// default settings. A size is both the width and the height.
    pub fn new(arguments: Arguments) -> (c: Config)
        ensures
            c.model_filename@ == arguments.model_file@,
            c.img_filename@ == arguments.img_file@,
            exists|extension: Option<Seq<char>>| #[trigger]
                is_extension(arguments.img_file@, extension) && is_format_for(
                    arguments.format,
                    extension,
                    c.format,
                ),
            arguments.format is None ==> exists|path: &str, e: Option<String>|
                path@ == arguments.img_file@ && #[trigger] is_found(path, e) && is_format_for(
                    None,
                    string_view(e),
                    c.format,
                ),
            c.width == match arguments.size {
                Some(size) => size,
                None => 1024,
            },
            c.height == match arguments.size {
                Some(size) => size,
                None => 768,
            },
            c.visible == arguments.visible,
            c.verbosity == arguments.verbosity,
            c.material == match arguments.material {
                Some(material) => material,
                None => default_material(),
            },
            c.background == match arguments.background {
                Some(background) => background,
                None => default_background(),
            },
            c.aamethod == match arguments.aamethod {
                Some(aamethod) => aamethod,
                None => AAMethod::FXAA,
            },
            c.recalc_normals == arguments.recalc_normals,
    {
        let mut c = Config::default();
        let path = arguments.img_file.as_str();
        let found = found_extension(path);
        let ghost first = found;
        let ghost known = string_view(found);
        match arguments.format {
            Some(format) => {
                c.format = format;
            },
            None => {
                if let Some(e) = found {
                    c.format = match_format(e.as_str());
                }
            },
        }
        assert(is_extension(arguments.img_file@, known) && is_format_for(
            arguments.format,
            known,
            c.format,
        ));
        assert(path@ == arguments.img_file@ && is_found(path, first));
        c.model_filename = arguments.model_file;
        c.img_filename = arguments.img_file;
        if let Some(size) = arguments.size {
            c.width = size;
            c.height = size;
        }
        c.visible = arguments.visible;
        c.verbosity = arguments.verbosity as usize;
        if let Some(material) = arguments.material {
            c.material = material;
        }
        if let Some(background) = arguments.background {
            c.background = background;
        }
        if let Some(aamethod) = arguments.aamethod {
            c.aamethod = aamethod;
        }
        c.recalc_normals = arguments.recalc_normals;
        c
    }
}

// ---------------------------------------------------------------------------
// Laws
// ---------------------------------------------------------------------------

/// A color means the same with and without a `#` in front.
pub proof fn law_hash(color: Seq<char>, n: int)
    requires
        color.len() > 0 ==> color[0] != '#',
    ensures
        hex_color(seq!['#'] + color, n) == hex_color(color, n),
{
    assert((seq!['#'] + color).skip(1) =~= color);
}

/// A color means the same in upper and lower case.
pub proof fn law_color_case(color: Seq<char>, n: int)
    requires
        n >= 0,
    ensures
        hex_color(ascii_lowercase(color), n) == hex_color(color, n),
{
    let hex = without_hash(color);
    let lower = without_hash(ascii_lowercase(color));
    assert(lower =~= ascii_lowercase(hex));
    assert forall|i: int| 0 <= i < hex.len() implies hex_value(#[trigger] lower[i]) == hex_value(
        hex[i],
    ) by {
        lemma_hex_case(hex[i]);
    }
    if is_hex(hex, 2 * n) {
        assert(is_hex(lower, 2 * n)) by {
            assert forall|i: int| 0 <= i < lower.len() implies hex_value(
                #[trigger] lower[i],
            ) is Some by {
                assert(hex_value(hex[i]) is Some);
            }
        }
        assert(hex_color(ascii_lowercase(color), n)->0 =~= hex_color(color, n)->0) by {
            assert forall|i: int| 0 <= i < n implies hex_byte(lower, i) == hex_byte(hex, i) by {
                assert(hex_value(lower[2 * i]) == hex_value(hex[2 * i]));
                assert(hex_value(lower[2 * i + 1]) == hex_value(hex[2 * i + 1]));
            }
        }
    } else if is_hex(lower, 2 * n) {
        assert forall|i: int| 0 <= i < hex.len() implies hex_value(#[trigger] hex[i]) is Some by {
            assert(hex_value(lower[i]) is Some);
        }
    }
}

proof fn lemma_hex_case(c: char)
    ensures
        hex_value(text::ascii_lower(c)) == hex_value(c),
{
}

} // verus!
