use stl_thumb::files::{model_format_named, model_source, ModelFormat, Source};
use stl_thumb::numbers::Real;
use stl_thumb::sequences::sorted_set;
use stl_thumb::text::white_space;
use stl_thumb::three_mf::path::normalize_path;

fn format(filename: &str) -> Result<ModelFormat, String> {
    match model_source(filename) {
        Ok(Source::File(format)) => Ok(format),
        Ok(Source::Stdin) => panic!("{} is not the standard input", filename),
        Err(e) => Err(e.extension),
    }
}

#[test]
fn a_dash_is_the_standard_input() {
    assert!(matches!(model_source("-"), Ok(Source::Stdin)));
}

#[test]
fn the_extension_says_the_model_format() {
    assert_eq!(format("a.stl"), Ok(ModelFormat::Stl));
    assert_eq!(format("a.OBJ"), Ok(ModelFormat::Obj));
    assert_eq!(format("dir.stl/a.3mf"), Ok(ModelFormat::ThreeMf));
    assert_eq!(format("a.step"), Ok(ModelFormat::Step));
    assert_eq!(format("/tmp/mount.STP"), Ok(ModelFormat::Step));
    assert_eq!(format("archive.tar.stl"), Ok(ModelFormat::Stl));
    assert_eq!(format("a.stl/"), Ok(ModelFormat::Stl));
    assert_eq!(format("a.stl/."), Ok(ModelFormat::Stl));
}

#[test]
fn the_end_of_a_name_shows_the_extension_on_every_system() {
    assert_eq!(format("a:x.stl"), Ok(ModelFormat::Stl));
    assert_eq!(format("C:\\dir.obj\\x.STL"), Ok(ModelFormat::Stl));
    assert_eq!(format("dir\\..x.3mf"), Ok(ModelFormat::ThreeMf));
    assert_eq!(format("a:b/c\\x.tar.step"), Ok(ModelFormat::Step));
    assert_eq!(format("a:x.stl."), Err("".to_string()));
}

#[test]
fn other_extensions_are_refused() {
    assert_eq!(format("a.PLY"), Err("ply".to_string()));
    assert_eq!(format("a"), Err("".to_string()));
    assert_eq!(format(".stl"), Err("".to_string()));
    assert_eq!(format("dir.stl/a"), Err("".to_string()));
    assert_eq!(format("a.stl/.."), Err("".to_string()));
    assert_eq!(format("a.stl."), Err("".to_string()));
    assert_eq!(format(""), Err("".to_string()));
    assert_eq!(model_format_named("STL"), None);
}

#[test]
fn package_paths_ignore_case_and_leading_slashes() {
    assert_eq!(normalize_path("/3D/3dmodel.model"), "3d/3dmodel.model");
    assert_eq!(normalize_path("//3D/Objects/A.MODEL"), "3d/objects/a.model");
    assert_eq!(normalize_path("3d/3dmodel.model"), "3d/3dmodel.model");
    assert_eq!(normalize_path("3d/ÄÖ.model"), "3d/äö.model");
    assert_eq!(normalize_path(""), "");
    assert_eq!(normalize_path(&normalize_path("///A/B")), normalize_path("///A/B"));
}

#[test]
fn real_numbers_are_those_that_the_standard_library_reads() {
    let texts = [
        "0", "1", "-1", "+1", "1.", ".5", "-.5", "1.5", "1e5", "1E5", "1.e-5", ".5e+5", "1e", "e5",
        ".", "", "+", "-", "--1", "1..2", "1.2.3", "1e5.0", "1e5e5", "inf", "-INF", "Infinity",
        "infinit", "nan", "NaN", "-nan", "0x10", "1_000", " 1", "1 ", "1,5", "١",
    ];
    for text in texts {
        let read = Real::parse(text);
        assert_eq!(read.is_some(), text.parse::<f64>().is_ok(), "{:?}", text);
        if let Some(number) = read {
            assert_eq!(number.text(), text);
        }
    }
}

#[test]
fn white_space_is_what_unicode_says() {
    for c in (0..=0x10ffffu32).filter_map(char::from_u32) {
        assert_eq!(white_space(c), c.is_whitespace(), "{:?}", c);
    }
}

#[test]
fn sorted_sets_are_sorted_and_distinct() {
    assert_eq!(sorted_set(vec![3, 1, 2, 3, 1, 1]), vec![1, 2, 3]);
    assert_eq!(sorted_set(vec![]), Vec::<u64>::new());
    assert_eq!(sorted_set(vec![7]), vec![7]);
}
