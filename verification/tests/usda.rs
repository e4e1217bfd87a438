use layerstack::usda::{
    parse_any_attr, parse_connection_line, parse_inherits_line, parse_named_rel_line,
    parse_path_list_rhs, parse_path_spec, parse_payloads_line, parse_prim_name,
    parse_reference_rhs, parse_reference_spec, parse_references_line, parse_rel_targets_line,
    parse_reorder_name_children, parse_specializes_line, parse_string_list_rhs, parse_sublayers,
    parse_time_samples_attr, parse_variant_branch_name, parse_variant_selections_line,
    parse_variant_set_names_line, parse_variant_set_start, resolve_relative_path,
    split_time_sample_entry, InheritOp,
    RefOp, ReferenceSpec, TargetOp,
};

fn strings(v: &[&str]) -> Vec<String> {
    v.iter().map(|s| s.to_string()).collect()
}

fn refs(v: &[ReferenceSpec]) -> Vec<(String, String)> {
    v.iter()
        .map(|r| (r.asset.clone(), r.prim_path.clone()))
        .collect()
}

#[test]
fn path_spec_reads_between_angle_brackets() {
    assert_eq!(parse_path_spec("  </World/A>  "), Some("/World/A".to_string()));
    assert_eq!(parse_path_spec("< /B >"), Some("/B".to_string()));
    assert_eq!(parse_path_spec("/World/A"), None);
    assert_eq!(parse_path_spec("</World/A"), None);
}

#[test]
fn path_list_reads_bracketed_and_single() {
    assert_eq!(
        parse_path_list_rhs("[</A>, </B/C>, ]"),
        Some(strings(&["/A", "/B/C"]))
    );
    assert_eq!(parse_path_list_rhs(" </Only> "), Some(strings(&["/Only"])));
    assert_eq!(parse_path_list_rhs("[]"), Some(Vec::new()));
    assert_eq!(parse_path_list_rhs("[</A>, B]"), None);
    assert_eq!(parse_path_list_rhs("[</A>"), None);
    assert_eq!(parse_path_list_rhs("nothing"), None);
}

#[test]
fn string_list_unquotes_and_drops_empty() {
    assert_eq!(
        parse_string_list_rhs(r#"["a", "b",, "" ,c]"#),
        Some(strings(&["a", "b", "c"]))
    );
    assert_eq!(parse_string_list_rhs("no brackets"), None);
    assert_eq!(parse_string_list_rhs("[\"x\""), None);
}

#[test]
fn reference_spec_with_and_without_asset() {
    let r = parse_reference_spec("@./model.usda@</Model>").unwrap();
    assert_eq!(r.asset, "./model.usda");
    assert_eq!(r.prim_path, "/Model");
    let r = parse_reference_spec("</Local/Prim>").unwrap();
    assert_eq!(r.asset, "");
    assert_eq!(r.prim_path, "/Local/Prim");
    assert!(parse_reference_spec("@missing_end").is_none());
    assert!(parse_reference_spec("@a.usda@").is_none());
    assert!(parse_reference_spec("plain").is_none());
}

#[test]
fn reference_rhs_lists() {
    let v = parse_reference_rhs("[@a.usda@</A>, </B>]").unwrap();
    assert_eq!(
        refs(&v),
        vec![
            ("a.usda".to_string(), "/A".to_string()),
            (String::new(), "/B".to_string())
        ]
    );
    let v = parse_reference_rhs("@b.usda@</B>").unwrap();
    assert_eq!(refs(&v), vec![("b.usda".to_string(), "/B".to_string())]);
    assert!(parse_reference_rhs("[@a.usda@</A>, junk]").is_none());
}

#[test]
fn references_line_ops() {
    let (op, v) = parse_references_line("references = @a.usda@</A>").unwrap();
    assert_eq!(op, RefOp::Explicit);
    assert_eq!(refs(&v), vec![("a.usda".to_string(), "/A".to_string())]);
    let (op, v) = parse_references_line("  add references = [</X>, </Y>],").unwrap();
    assert_eq!(op, RefOp::Append);
    assert_eq!(v.len(), 2);
    let (op, _) = parse_references_line("prepend references = </X>").unwrap();
    assert_eq!(op, RefOp::Prepend);
    assert!(parse_references_line("").is_none());
    assert!(parse_references_line("inherits = </X>").is_none());
    assert!(parse_references_line("references </X>").is_none());
}

#[test]
fn payload_line_accepts_both_keywords() {
    let (op, v) = parse_payloads_line("payload = @p.usda@</P>").unwrap();
    assert_eq!(op, RefOp::Explicit);
    assert_eq!(refs(&v), vec![("p.usda".to_string(), "/P".to_string())]);
    let (op, _) = parse_payloads_line("prepend payloads = @p.usda@</P>").unwrap();
    assert_eq!(op, RefOp::Prepend);
    let (op, _) = parse_payloads_line("append payload = </P>").unwrap();
    assert_eq!(op, RefOp::Append);
    let (op, _) = parse_payloads_line("add payloads = </P>").unwrap();
    assert_eq!(op, RefOp::Append);
    assert!(parse_payloads_line("payloads").is_none());
}

#[test]
fn inherits_and_specializes_lines() {
    assert_eq!(
        parse_inherits_line("inherits = </_class_A>"),
        Some((InheritOp::Explicit, strings(&["/_class_A"])))
    );
    assert_eq!(
        parse_inherits_line("append inherits = [</B>, </C>]"),
        Some((InheritOp::Append, strings(&["/B", "/C"])))
    );
    assert_eq!(
        parse_inherits_line("prepend inherits = </B>"),
        Some((InheritOp::Prepend, strings(&["/B"])))
    );
    assert_eq!(
        parse_inherits_line("add inherits = </B>"),
        Some((InheritOp::Append, strings(&["/B"])))
    );
    assert_eq!(
        parse_specializes_line("specializes = </Base>"),
        Some((InheritOp::Explicit, strings(&["/Base"])))
    );
    assert_eq!(
        parse_specializes_line("prepend specializes = </Base>"),
        Some((InheritOp::Prepend, strings(&["/Base"])))
    );
    assert!(parse_specializes_line("specializes").is_none());
    assert!(parse_inherits_line("").is_none());
}

#[test]
fn rel_targets_and_named_rels() {
    assert_eq!(
        parse_rel_targets_line("rel targets = [</A>, </B>]"),
        Some((TargetOp::Explicit, strings(&["/A", "/B"])))
    );
    assert_eq!(
        parse_rel_targets_line("prepend rel targets = </A>"),
        Some((TargetOp::Prepend, strings(&["/A"])))
    );
    assert_eq!(
        parse_named_rel_line("add rel controls = </Rig>"),
        Some(("controls".to_string(), TargetOp::Append, strings(&["/Rig"])))
    );
    assert_eq!(
        parse_named_rel_line("rel material:binding = </Mat>"),
        Some((
            "material:binding".to_string(),
            TargetOp::Explicit,
            strings(&["/Mat"])
        ))
    );
    assert_eq!(
        parse_named_rel_line("custom rel x = </Y>"),
        Some(("x".to_string(), TargetOp::Explicit, strings(&["/Y"])))
    );
    assert!(parse_named_rel_line("custom rel x").is_none());
    assert!(parse_named_rel_line("rel targets = </A>").is_none());
    assert!(parse_named_rel_line("def Xform \"A\"").is_none());
}

#[test]
fn connection_lines() {
    assert_eq!(
        parse_connection_line("add double focalLength.connect = </Cam.focal>"),
        Some((
            "focalLength".to_string(),
            TargetOp::Append,
            strings(&["/Cam.focal"])
        ))
    );
    assert_eq!(
        parse_connection_line("float x.connect = [</A.y>, </B.z>]"),
        Some((
            "x".to_string(),
            TargetOp::Explicit,
            strings(&["/A.y", "/B.z"])
        ))
    );
    assert_eq!(
        parse_connection_line("prepend token t.connect = </T.u>"),
        Some(("t".to_string(), TargetOp::Prepend, strings(&["/T.u"])))
    );
    assert!(parse_connection_line("double x = 1").is_none());
    assert!(parse_connection_line("double x.connect").is_none());
}

#[test]
fn reorder_name_children_line() {
    assert_eq!(
        parse_reorder_name_children(r#"reorder nameChildren = ["b", "a"]"#),
        Some(strings(&["b", "a"]))
    );
    assert!(parse_reorder_name_children("reorder properties = [\"b\"]").is_none());
}

#[test]
fn variant_selection_lines() {
    assert_eq!(
        parse_variant_selections_line(r#"variants = { string v1 = "C", string v2 = "Z" }"#),
        Some(vec![
            ("v1".to_string(), "C".to_string()),
            ("v2".to_string(), "Z".to_string())
        ])
    );
    assert_eq!(
        parse_variant_selections_line(r#"variants = { string a = "x" string b = "y" }"#),
        Some(vec![
            ("a".to_string(), "x".to_string()),
            ("b".to_string(), "y".to_string())
        ])
    );
    assert_eq!(
        parse_variant_selections_line(r#"variants = { string a = "" }"#),
        Some(Vec::new())
    );
    assert!(parse_variant_selections_line(r#"variants = { string broken }"#).is_none());
    assert!(parse_variant_selections_line("variantSets = [\"a\"]").is_none());
}

#[test]
fn variant_set_name_lines() {
    assert_eq!(
        parse_variant_set_names_line(r#"variantSets = ["shading", "lod"]"#),
        Some(strings(&["shading", "lod"]))
    );
    assert_eq!(
        parse_variant_set_names_line(r#"add variantSets = "costume""#),
        Some(strings(&["costume"]))
    );
    assert_eq!(
        parse_variant_set_names_line(r#"prepend variantSets = "x""#),
        Some(strings(&["x"]))
    );
    assert!(parse_variant_set_names_line(r#"variantSets = """#).is_none());
}

#[test]
fn variant_set_and_branch_headers() {
    assert_eq!(
        parse_variant_set_start(r#"variantSet "shading" = {"#),
        Some("shading".to_string())
    );
    assert!(parse_variant_set_start(r#"variantSet "shading" {"#).is_none());
    assert_eq!(
        parse_variant_branch_name(r#"  "red" {"#),
        Some("red".to_string())
    );
    assert_eq!(
        parse_variant_branch_name(r#""full" ("#),
        Some("full".to_string())
    );
    assert_eq!(parse_variant_branch_name(r#""bare""#), Some("bare".to_string()));
    assert!(parse_variant_branch_name(r#""x" = 1"#).is_none());
    assert!(parse_variant_branch_name("red {").is_none());
}

#[test]
fn attribute_names() {
    assert_eq!(parse_any_attr("custom double size = 1"), Some("size".to_string()));
    assert_eq!(
        parse_any_attr("uniform token purpose = \"render\""),
        Some("purpose".to_string())
    );
    assert_eq!(parse_any_attr(r#"string "v" = "ref""#), Some("v".to_string()));
    assert_eq!(parse_any_attr("int count.timeSamples = {"), Some("count".to_string()));
    assert_eq!(parse_any_attr("bool flag;"), Some("flag".to_string()));
    assert!(parse_any_attr("double = 3").is_none());
    assert!(parse_any_attr("matrix4d xform = 1").is_none());
    assert_eq!(
        parse_time_samples_attr("int root.timeSamples = {"),
        Some("root".to_string())
    );
    assert!(parse_time_samples_attr("int root = 3").is_none());
    assert!(parse_time_samples_attr("int .timeSamples = {").is_none());
}

#[test]
fn prim_names() {
    assert_eq!(parse_prim_name(r#"def Xform "World" {"#), Some("World".to_string()));
    assert_eq!(parse_prim_name(r#"over """#), Some(String::new()));
    assert!(parse_prim_name("def Xform World").is_none());
    assert!(parse_prim_name("def \"Open").is_none());
}

#[test]
fn relative_paths() {
    assert_eq!(resolve_relative_path("/Abs/Path", "/A/B"), "/Abs/Path");
    assert_eq!(resolve_relative_path("../C", "/A/B"), "/A/C");
    assert_eq!(resolve_relative_path("./C/D", "/A"), "/A/C/D");
    assert_eq!(resolve_relative_path("../../..", "/A/B"), "/");
    assert_eq!(resolve_relative_path("X", ""), "/X");
}

#[test]
fn sublayer_lists() {
    let text = "#usda 1.0\n(\n    subLayers = [\n        @./a.usda@,\n        @sub/b.usda@\n    ]\n)\n";
    assert_eq!(parse_sublayers(text), strings(&["a.usda", "sub/b.usda"]));
    assert!(parse_sublayers("#usda 1.0\n").is_empty());
    assert!(parse_sublayers("subLayers = ").is_empty());
    assert_eq!(parse_sublayers("subLayers = []"), Vec::<String>::new());
}

#[test]
fn time_sample_entries() {
    assert_eq!(
        split_time_sample_entry(" -10: 100,"),
        Some(("-10".to_string(), "100".to_string()))
    );
    assert_eq!(
        split_time_sample_entry("0:(1, 2)"),
        Some(("0".to_string(), "(1, 2)".to_string()))
    );
    assert!(split_time_sample_entry("no colon").is_none());
}
