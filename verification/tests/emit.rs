use iconforge::emit::{emit_svg, extract_attr, find_free, validate, EmitError, IconVectors};

const SQUARE: &str = "<path d=\"M4,4L12,4L12,12L4,12Z\" fill=\"#0a0a0a\"/>";
const SMALL: &str = "<path d=\"M0,0L2,0L2,2Z\" fill=\"#0a0a0a\"/>";
const RED: &str = "<path d=\"M1,1L3,1L3,3Z\" fill=\"#ff0000\"/>";

fn vectors(fragment: &str) -> IconVectors {
    IconVectors {
        svg: fragment.to_string(),
        palette: Vec::new(),
    }
}

#[test]
fn emits_valid_document_through_usvg_gate() {
    let doc = emit_svg(&vectors(SQUARE), 16, 16, "mono-clean", false).unwrap();
    assert!(
        doc.starts_with("<svg xmlns=\"http://www.w3.org/2000/svg\""),
        "{doc}"
    );
    assert!(doc.contains("viewBox=\"0 0 16 16\""));
    assert!(doc.contains("<title>icon</title>"));
    assert!(doc.contains("<desc>Icon Forge preset=mono-clean</desc>"));
    assert!(doc.contains("<metadata>icon-forge v1 preset=mono-clean paths=1</metadata>"));
    assert!(doc.ends_with("</svg>"));
    validate(&doc).unwrap();
}

#[test]
fn same_style_paths_are_merged_in_order() {
    let frag = format!("{SQUARE}{SMALL}");
    let doc = emit_svg(&vectors(&frag), 16, 16, "mono-clean", false).unwrap();
    assert_eq!(doc.matches("<path").count(), 1, "{doc}");
    assert!(
        doc.contains("d=\"M4,4L12,4L12,12L4,12Z M0,0L2,0L2,2Z\""),
        "{doc}"
    );
}

#[test]
fn different_styles_stay_separate() {
    let frag = format!("{SQUARE}{RED}");
    let doc = emit_svg(&vectors(&frag), 16, 16, "flat-8", false).unwrap();
    assert_eq!(doc.matches("<path").count(), 2, "{doc}");
    assert!(doc.contains("fill=\"#0a0a0a\""));
    assert!(doc.contains("fill=\"#ff0000\""));
}

#[test]
fn empty_fragment_is_rejected() {
    let err = emit_svg(&vectors(""), 16, 16, "mono-clean", false).unwrap_err();
    assert_eq!(err, EmitError::EmptyFragment);
}

#[test]
fn path_with_empty_d_is_rejected() {
    let frag = "<path d=\"\" fill=\"#000000\"/>";
    let err = emit_svg(&vectors(frag), 16, 16, "mono-clean", false).unwrap_err();
    assert_eq!(err, EmitError::EmptyPath);
}

#[test]
fn unparseable_document_is_never_returned() {
    // '<' inside an attribute value is a hard XML error.
    let frag = "<path d=\"<\" fill=\"#000000\"/>";
    let err = emit_svg(&vectors(frag), 16, 16, "mono-clean", false).unwrap_err();
    assert!(matches!(err, EmitError::Unparseable(_)), "{err:?}");
}

#[test]
fn emit_is_byte_deterministic() {
    let frag = format!("{SQUARE}{SMALL}");
    let a = emit_svg(&vectors(&frag), 16, 16, "flat-8", true).unwrap();
    let b = emit_svg(&vectors(&frag), 16, 16, "flat-8", true).unwrap();
    assert_eq!(a, b);
    assert!(a.contains("stroke-only"), "{a}");
}

#[test]
fn emit_errors_say_what_is_wrong() {
    assert_eq!(EmitError::EmptyFragment.message(), "fragment has no paths");
    assert_eq!(EmitError::EmptyPath.message(), "path element with empty d");
    assert_eq!(
        EmitError::Unparseable("x".to_string()).message(),
        "usvg rejected the document: x"
    );
}

#[test]
fn documents_that_are_no_svg_are_refused() {
    assert!(validate("<svg").is_err());
    assert!(validate("").is_err());
    assert!(validate("<svg xmlns=\"http://www.w3.org/2000/svg\" width=\"4\" height=\"4\"/>").is_ok());
}

#[test]
fn an_attribute_is_not_the_tail_of_another_name() {
    let attrs: Vec<char> = "id=\"a\" d=\"M0\"".chars().collect();
    assert_eq!(extract_attr(&attrs, "d"), Some((7, 10, 12)));
    let only: Vec<char> = "id=\"a\"".chars().collect();
    assert_eq!(extract_attr(&only, "d"), None);
    let dashed: Vec<char> = "data-d=\"x\" x9d=\"y\" d=\"z\"".chars().collect();
    assert_eq!(extract_attr(&dashed, "d"), Some((19, 22, 23)));
    let open: Vec<char> = "d=\"M0".chars().collect();
    assert_eq!(extract_attr(&open, "d"), None);
    let needle: Vec<char> = "d=\"".chars().collect();
    assert_eq!(find_free(&attrs, &needle, 0), Some(7));
    assert_eq!(find_free(&attrs, &needle, 8), None);
}

#[test]
fn a_path_with_an_id_is_emitted() {
    let doc = emit_svg(
        &vectors("<path id=\"a\" d=\"M4,4L12,4L12,12L4,12Z\" fill=\"#0a0a0a\"/>"),
        16,
        16,
        "mono-clean",
        false,
    )
    .unwrap();
    validate(&doc).unwrap();
    assert!(doc.contains(" d=\"M4"), "{doc}");
}

#[test]
fn a_letter_of_any_script_hides_an_attribute() {
    let attrs: Vec<char> = "\u{e9}d=\"a\" \u{2013}d=\"b\"".chars().collect();
    // A letter comes before the first, a dash of typography before the second.
    assert_eq!(extract_attr(&attrs, "d"), Some((8, 11, 12)));
}
