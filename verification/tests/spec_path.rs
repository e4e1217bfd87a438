use layerstack::interner::TokenInterner;
use layerstack::path::{Path, PathError, PathInterner};
use layerstack::spec_path::{SpecComponent, SpecPath, SpecPathError};

#[test]
fn from_variant_qualified_prim_path_formats_expected_string() {
    let mut tokens = TokenInterner::default();
    let mut paths = PathInterner::default();
    let host = paths.intern(Path::parse_absolute("/Sarah", &mut tokens).expect("path"));
    let concrete = paths
        .intern(Path::parse_absolute("/Sarah/FaceRig/EyesRig", &mut tokens).expect("path"));
    let selection = (tokens.intern("modelComplexity"), tokens.intern("full"));

    let spec = SpecPath::from_variant_qualified_prim_path(concrete, host, &[selection], &paths);

    assert_eq!(
        spec.display(&tokens),
        "/Sarah{modelComplexity=full}FaceRig/EyesRig"
    );
    assert_eq!(spec.prim_path(), concrete);
}

#[test]
fn parse_round_trips_variant_property_path() {
    let mut tokens = TokenInterner::default();
    let mut paths = PathInterner::default();

    let spec = SpecPath::parse(
        "/A{nestedVariantSet=nestedVariant}.test",
        &mut tokens,
        &mut paths,
    )
    .expect("spec path");

    assert_eq!(
        spec.display(&tokens),
        "/A{nestedVariantSet=nestedVariant}.test"
    );
    let prim = paths.resolve(spec.prim_path());
    assert_eq!(prim.display(&tokens), "/A");
}

#[test]
fn from_prim_path_lists_prim_components() {
    let mut tokens = TokenInterner::default();
    let mut paths = PathInterner::default();
    let id = paths.intern(Path::parse_absolute("/A/B", &mut tokens).expect("path"));
    let spec = SpecPath::from_prim_path(id, &paths);
    let a = tokens.lookup("A").unwrap();
    let b = tokens.lookup("B").unwrap();
    assert_eq!(
        spec.components(),
        &[SpecComponent::Prim(a), SpecComponent::Prim(b)]
    );
    assert_eq!(spec.property(), None);
    assert_eq!(spec.display(&tokens), "/A/B");
}

#[test]
fn with_property_appends_suffix() {
    let mut tokens = TokenInterner::default();
    let mut paths = PathInterner::default();
    let id = paths.intern(Path::parse_absolute("/World", &mut tokens).expect("path"));
    let attr = tokens.intern("size");
    let spec = SpecPath::from_prim_path(id, &paths).with_property(attr);
    assert_eq!(spec.property(), Some(attr));
    assert_eq!(spec.prim_path(), id);
    assert_eq!(spec.display(&tokens), "/World.size");
}

#[test]
fn parse_nested_selections_and_prims() {
    let mut tokens = TokenInterner::default();
    let mut paths = PathInterner::default();
    let spec = SpecPath::parse("/A{v=red}B/C{w=x}", &mut tokens, &mut paths).expect("spec path");
    assert_eq!(spec.display(&tokens), "/A{v=red}B/C{w=x}");
    assert_eq!(paths.resolve(spec.prim_path()).display(&tokens), "/A/B/C");
    assert_eq!(spec.components().len(), 5);
}

#[test]
fn spec_path_parse_errors() {
    let mut tokens = TokenInterner::default();
    let mut paths = PathInterner::default();
    assert_eq!(
        SpecPath::parse("A/B", &mut tokens, &mut paths).unwrap_err(),
        SpecPathError::NotAbsolute
    );
    assert_eq!(
        SpecPath::parse("/A//B", &mut tokens, &mut paths).unwrap_err(),
        SpecPathError::EmptySegment
    );
    assert_eq!(
        SpecPath::parse("//A", &mut tokens, &mut paths).unwrap_err(),
        SpecPathError::EmptySegment
    );
    assert_eq!(
        SpecPath::parse("/A/", &mut tokens, &mut paths).unwrap_err(),
        SpecPathError::EmptySegment
    );
    assert_eq!(
        SpecPath::parse("/A{v=x", &mut tokens, &mut paths).unwrap_err(),
        SpecPathError::MalformedVariantSelection
    );
    assert_eq!(
        SpecPath::parse("/A{v}B", &mut tokens, &mut paths).unwrap_err(),
        SpecPathError::MalformedVariantSelection
    );
    assert_eq!(
        SpecPath::parse("/A.", &mut tokens, &mut paths).unwrap_err(),
        SpecPathError::EmptyPropertyName
    );
}

#[test]
fn path_error_converts_into_spec_path_error() {
    let e: SpecPathError = PathError::EmptySegment.into();
    assert_eq!(e, SpecPathError::InvalidPrimPath(PathError::EmptySegment));
}

#[test]
fn display_then_parse_reads_back_components() {
    let mut tokens = TokenInterner::default();
    let mut paths = PathInterner::default();
    let host = paths.intern(Path::parse_absolute("/Rig", &mut tokens).expect("path"));
    let prim = paths.intern(Path::parse_absolute("/Rig/Arm/Hand", &mut tokens).expect("path"));
    let sel = (tokens.intern("lod"), tokens.intern("high"));
    let attr = tokens.intern("width");
    let built =
        SpecPath::from_variant_qualified_prim_path(prim, host, &[sel], &paths).with_property(attr);
    let text = built.display(&tokens);
    assert_eq!(text, "/Rig{lod=high}Arm/Hand.width");
    let count = tokens.len();
    let back = SpecPath::parse(&text, &mut tokens, &mut paths).expect("spec path");
    assert_eq!(back.components(), built.components());
    assert_eq!(back.property(), built.property());
    assert_eq!(back.prim_path(), prim);
    assert_eq!(tokens.len(), count);
}

#[test]
fn parse_names_components_and_property() {
    let mut tokens = TokenInterner::default();
    let mut paths = PathInterner::default();
    let spec = SpecPath::parse("/A{v=red}B/C.attr", &mut tokens, &mut paths).expect("spec path");
    let a = tokens.intern("A");
    let v = tokens.intern("v");
    let red = tokens.intern("red");
    let b = tokens.intern("B");
    let c = tokens.intern("C");
    let attr = tokens.intern("attr");
    assert_eq!(tokens.len(), 6);
    assert_eq!(
        spec.components(),
        &[
            SpecComponent::Prim(a),
            SpecComponent::VariantSelection { set: v, variant: red },
            SpecComponent::Prim(b),
            SpecComponent::Prim(c),
        ]
    );
    assert_eq!(paths.resolve(spec.prim_path()).display(&tokens), "/A/B/C");
    assert_eq!(spec.property(), Some(attr));
    assert_eq!(spec.display(&tokens), "/A{v=red}B/C.attr");
}

#[test]
fn parse_root_is_root_path() {
    let mut tokens = TokenInterner::default();
    let mut paths = PathInterner::default();
    let spec = SpecPath::parse("/", &mut tokens, &mut paths).expect("root");
    assert!(spec.components().is_empty());
    assert_eq!(spec.property(), None);
    assert_eq!(paths.resolve(spec.prim_path()).display(&tokens), "/");
    assert_eq!(tokens.len(), 0);
}
