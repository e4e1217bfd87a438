use layerstack::listop::{resolve_list_chain, ListOp};

fn explicit(items: &[u32]) -> ListOp<u32> {
    ListOp { explicit: Some(items.to_vec()), ..ListOp::default() }
}

fn edits(prepend: &[u32], append: &[u32], delete: &[u32]) -> ListOp<u32> {
    ListOp {
        explicit: None,
        prepend: prepend.to_vec(),
        append: append.to_vec(),
        delete: delete.to_vec(),
    }
}

#[test]
fn combine_chain_vectors_match_ordered_elements() {
    // (description, chain strongest first, expected elements)
    let cases: Vec<(&str, Vec<ListOp<u32>>, Vec<u32>)> = vec![
        ("inert only", vec![ListOp::default(), ListOp::default()], vec![]),
        ("explicit only", vec![explicit(&[3, 1]), explicit(&[1, 2])], vec![3, 1]),
        ("composable only", vec![edits(&[2], &[], &[]), edits(&[], &[1], &[])], vec![2, 1]),
        ("append over explicit", vec![edits(&[], &[3], &[]), explicit(&[1, 2])], vec![1, 2, 3]),
        ("prepend over explicit", vec![edits(&[3], &[], &[]), explicit(&[1, 2])], vec![3, 1, 2]),
        ("delete over explicit", vec![edits(&[], &[], &[1]), explicit(&[1, 2])], vec![2]),
        ("prepend over composable", vec![edits(&[1], &[], &[]), edits(&[], &[1, 2], &[])], vec![1, 2]),
        ("append over composable", vec![edits(&[], &[1], &[]), edits(&[1, 2], &[], &[])], vec![2, 1]),
    ];
    for (desc, chain, expected) in cases {
        assert_eq!(resolve_list_chain(&[], &chain), expected, "case {desc}");
    }
}
