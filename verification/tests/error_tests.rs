use obj2brs::error::{ConversionError, MissingResources};
use obj2brs::logger::Logger;
use obj2brs::text::usize_to_string;

#[test]
fn numbers_render_in_decimal() {
    assert_eq!(usize_to_string(0), "0");
    assert_eq!(usize_to_string(7), "7");
    assert_eq!(usize_to_string(10), "10");
    assert_eq!(usize_to_string(90210), "90210");
}

#[test]
fn error_messages_name_the_resource() {
    let e = ConversionError::ObjFileNotFound { path: String::from("a/b.obj") };
    assert_eq!(e.message(), "Failed to open OBJ file: a/b.obj");
    let e = ConversionError::TextureNotFound {
        path: String::from("tex.png"),
        material: String::from("wood"),
    };
    assert_eq!(e.message(), "Texture file not found: tex.png for material wood");
    let e = ConversionError::NoMaterials;
    assert_eq!(e.message(), "No materials found in OBJ file");
    let e = ConversionError::SaveWriteError(String::from("disk full"));
    assert_eq!(e.message(), "Failed to write save file: disk full");
}

#[test]
fn every_error_variant_has_a_message() {
    let e = ConversionError::ObjParseError(String::from("bad face"));
    assert_eq!(e.message(), "Failed to parse OBJ file: bad face");
    let e = ConversionError::MaterialFileNotFound { path: String::from("m.mtl") };
    assert_eq!(e.message(), "Material file not found: m.mtl");
    let e = ConversionError::TextureLoadError {
        path: String::from("t.png"),
        reason: String::from("corrupt"),
    };
    assert_eq!(e.message(), "Failed to load texture t.png: corrupt");
    let e = ConversionError::OutputDirError { path: String::from("out") };
    assert_eq!(e.message(), "Failed to create output directory: out");
    let e = ConversionError::Io(String::from("broken pipe"));
    assert_eq!(e.message(), "IO error: broken pipe");
}

#[test]
fn fresh_report_has_no_issues() {
    let r = MissingResources::new();
    assert!(!r.has_issues());
    assert_eq!(r.description(), "");
}

#[test]
fn missing_textures_are_listed_with_count() {
    let mut r = MissingResources::new();
    r.missing_textures.push((String::from("wood"), String::from("wood.png")));
    r.missing_textures.push((String::from("stone"), String::from("stone.png")));
    assert!(r.has_issues());
    let d = r.description();
    assert!(d.contains("2 missing texture(s)"));
    assert!(d.contains("Material: wood"));
    assert!(d.contains("Expected: stone.png"));
}

#[test]
fn missing_material_file_is_reported() {
    let mut r = MissingResources::new();
    r.missing_materials = true;
    assert!(r.has_issues());
    assert!(r.description().contains("No material file"));
}

#[test]
fn logger_keeps_messages_in_order() {
    let mut l = Logger::new();
    assert!(l.get_messages().is_empty());
    l.log(String::from("one"));
    l.log(String::from("two"));
    assert_eq!(l.get_messages(), vec!["one", "two"]);
}
