use layerstack::doc::Specifier;
use layerstack::prim_defs::{parse_prim_defs, PrimDef};
use layerstack::usda::TargetOp;

fn strings(v: &[&str]) -> Vec<String> {
    v.iter().map(|s| s.to_string()).collect()
}

fn pair(a: &str, b: &str) -> (String, String) {
    (a.to_string(), b.to_string())
}

fn triple(a: &str, b: &str, c: &str) -> (String, String, String) {
    (a.to_string(), b.to_string(), c.to_string())
}

fn paths(defs: &[PrimDef]) -> Vec<String> {
    defs.iter().map(|d| d.path.clone()).collect()
}

const LAYER: &str = r#"#usda 1.0
(
    subLayers = [@./sub.usda@]
)

def Xform "World" (
    references = @./model.usda@</Model>
    inherits = </_class_Base>
)
{
    custom double size = 1
    int count.timeSamples = { 0: 1, 10: 2 }
    rel targets = [</World/A>, </World/B>]
    add rel controls = </Rig>
    add double focal.connect = </Cam.focal>
    reorder nameChildren = ["B", "A"]

    def "A"
    {
    }

    over "B" (
        prepend specializes = </Spec>
    )
    {
        float x = 1
    }
}

class "_class_Base"
{
}
"#;

#[test]
fn prims_nest_and_keep_their_order() {
    let defs = parse_prim_defs(LAYER);
    assert_eq!(
        paths(&defs),
        strings(&["/World", "/World/A", "/World/B", "/_class_Base"])
    );
    assert_eq!(defs[0].specifier, Specifier::Def);
    assert_eq!(defs[2].specifier, Specifier::Over);
    assert_eq!(defs[3].specifier, Specifier::Class);
}

#[test]
fn header_metadata_is_recorded() {
    let defs = parse_prim_defs(LAYER);
    let world = &defs[0];
    let refs = world.references.explicit.as_ref().unwrap();
    assert_eq!(refs.len(), 1);
    assert_eq!(refs[0].asset, "./model.usda");
    assert_eq!(refs[0].prim_path, "/Model");
    assert_eq!(
        world.inherits.explicit,
        Some(strings(&["/_class_Base"]))
    );
    assert_eq!(defs[2].specializes.prepend, strings(&["/Spec"]));
    assert!(defs[2].specializes.explicit.is_none());
}

#[test]
fn attributes_relationships_and_order() {
    let defs = parse_prim_defs(LAYER);
    let world = &defs[0];
    assert_eq!(world.attrs, strings(&["size", "count", "controls", "focal"]));
    assert_eq!(
        world.time_samples,
        vec![(
            "count".to_string(),
            vec![pair("0", "1"), pair("10", "2")]
        )]
    );
    assert_eq!(
        world.targets.explicit,
        Some(strings(&["/World/A", "/World/B"]))
    );
    assert_eq!(
        world.named_rels,
        vec![("controls".to_string(), TargetOp::Append, strings(&["/Rig"]))]
    );
    assert_eq!(
        world.connections,
        vec![("focal".to_string(), TargetOp::Append, strings(&["/Cam.focal"]))]
    );
    assert_eq!(world.prim_order, Some(strings(&["B", "A"])));
    assert_eq!(defs[2].attrs, strings(&["x"]));
    assert!(defs[1].attrs.is_empty());
}

#[test]
fn variant_metadata_fields_and_branch_arcs() {
    let text = r#"def Xform "Model" (
    variants = {
        string shading = "red"
    }
    prepend variantSets = "shading"
)
{
    variantSet "shading" = {
        "red" {
            custom double roughness = 2
        }
        "blue" (
            add references = </Blue>
        ) {
        }
    }
}
"#;
    let defs = parse_prim_defs(text);
    assert_eq!(paths(&defs), strings(&["/Model"]));
    let model = &defs[0];
    assert_eq!(model.variant_selections, vec![pair("shading", "red")]);
    assert_eq!(model.variant_set_names, strings(&["shading"]));
    assert_eq!(
        model.variant_fields,
        vec![triple("shading", "red", "roughness")]
    );
    assert!(model.attrs.is_empty());
    assert_eq!(model.variant_branch_arcs.len(), 1);
    let arc = &model.variant_branch_arcs[0];
    assert_eq!(arc.set_name, "shading");
    assert_eq!(arc.branch_name, "blue");
    assert_eq!(arc.references.append.len(), 1);
    assert_eq!(arc.references.append[0].asset, "");
    assert_eq!(arc.references.append[0].prim_path, "/Blue");
}

#[test]
fn prims_inside_variant_branches_know_their_context() {
    let text = r#"def "Root"
{
    variantSet "lod" = {
        "high" {
            def "Detail"
            {
                float size = 2
            }
        }
    }
}
"#;
    let defs = parse_prim_defs(text);
    assert_eq!(paths(&defs), strings(&["/Root", "/Root/Detail"]));
    let detail = &defs[1];
    assert_eq!(detail.variant_parent, Some(triple("/Root", "lod", "high")));
    assert_eq!(
        detail.full_variant_context,
        vec![triple("/Root", "lod", "high")]
    );
    assert_eq!(detail.attrs, strings(&["size"]));
    assert!(defs[0].variant_fields.is_empty());
    assert!(defs[0].variant_parent.is_none());
}

#[test]
fn multi_line_time_samples_swallow_their_block() {
    let text = "def \"P\"\n{\n    double v.timeSamples = {\n        -1: 5,\n        bad\n        3: 7,\n    }\n}\ndef \"Q\"\n{\n}\n";
    let defs = parse_prim_defs(text);
    assert_eq!(
        defs[0].time_samples,
        vec![("v".to_string(), vec![pair("-1", "5"), pair("3", "7")])]
    );
    assert_eq!(defs[0].attrs, strings(&["v"]));
    // The `{` of the block stays open (its `}` line was read as part of the
    // block), so the prim's own `}` closes it and `Q` nests under `P`.
    assert_eq!(paths(&defs), strings(&["/P", "/P/Q"]));
}

#[test]
fn crlf_lines_and_empty_text() {
    let text = "def \"A\"\r\n{\r\n    int n = 1\r\n}\r\n";
    let defs = parse_prim_defs(text);
    assert_eq!(paths(&defs), strings(&["/A"]));
    assert_eq!(defs[0].attrs, strings(&["n"]));
    assert!(parse_prim_defs("").is_empty());
}

#[test]
fn custom_rel_targets_declaration() {
    let text = "def \"A\"\n{\n    custom rel targets\n    prepend rel targets = </X>\n}\n";
    let defs = parse_prim_defs(text);
    assert!(defs[0].declares_targets);
    assert_eq!(defs[0].targets.prepend, strings(&["/X"]));
}
