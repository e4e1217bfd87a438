use layerstack::interner::TokenInterner;
use layerstack::path::{Path, PathId, PathInterner};
use layerstack::population::{
    add_ancestor_paths, apply_population_mask, build_children_index, OrderedPathSet, Traverse,
};
use layerstack::stage::PopulationMask;

fn id(tokens: &mut TokenInterner, paths: &mut PathInterner, s: &str) -> PathId {
    let p = Path::parse_absolute(s, tokens).unwrap();
    paths.intern(p)
}

fn texts(tokens: &TokenInterner, paths: &PathInterner, set: &OrderedPathSet) -> Vec<String> {
    let mut out: Vec<String> = set.to_vec().iter().map(|i| paths.resolve(*i).display(tokens)).collect();
    out.sort();
    out
}

#[test]
fn ordered_set_keeps_ids_ascending_and_unique() {
    let mut set = OrderedPathSet::new();
    assert!(set.insert(PathId::from_raw(5)));
    assert!(set.insert(PathId::from_raw(1)));
    assert!(!set.insert(PathId::from_raw(5)));
    assert!(set.insert(PathId::from_raw(3)));
    assert_eq!(
        set.to_vec(),
        vec![PathId::from_raw(1), PathId::from_raw(3), PathId::from_raw(5)]
    );
    assert!(set.contains(PathId::from_raw(3)));
    assert!(!set.contains(PathId::from_raw(4)));
    assert_eq!(set.len(), 3);
}

#[test]
fn ancestors_are_added_and_interned() {
    let mut tokens = TokenInterner::default();
    let mut paths = PathInterner::default();
    let leaf = id(&mut tokens, &mut paths, "/World/Geom/Mesh");
    let other = id(&mut tokens, &mut paths, "/Looks");
    let mut set = OrderedPathSet::new();
    set.insert(leaf);
    set.insert(other);
    add_ancestor_paths(&mut paths, &mut set);
    assert_eq!(
        texts(&tokens, &paths, &set),
        vec!["/", "/Looks", "/World", "/World/Geom", "/World/Geom/Mesh"]
    );
    // Ancestors interned in member order, parent first.
    assert_eq!(paths.resolve(PathId::from_raw(2)).display(&tokens), "/World/Geom");
    assert_eq!(paths.resolve(PathId::from_raw(3)).display(&tokens), "/World");
    assert_eq!(paths.resolve(PathId::from_raw(4)).display(&tokens), "/");
    assert_eq!(paths.len(), 5);
}

#[test]
fn population_mask_keeps_included_paths_ancestors_and_root() {
    let mut tokens = TokenInterner::default();
    let mut paths = PathInterner::default();
    let root = id(&mut tokens, &mut paths, "/");
    let world = id(&mut tokens, &mut paths, "/World");
    let geom = id(&mut tokens, &mut paths, "/World/Geom");
    let mesh = id(&mut tokens, &mut paths, "/World/Geom/Mesh");
    let looks = id(&mut tokens, &mut paths, "/Looks");
    let mut set = OrderedPathSet::new();
    for i in [root, world, geom, mesh, looks] {
        set.insert(i);
    }
    let mask = PopulationMask { included: vec![geom] };
    apply_population_mask(&mut paths, &mut set, Some(&mask));
    assert_eq!(texts(&tokens, &paths, &set), vec!["/", "/World", "/World/Geom"]);
    let before = set.to_vec();
    apply_population_mask(&mut paths, &mut set, None);
    assert_eq!(set.to_vec(), before);
}

#[test]
fn children_index_lists_children_in_namespace_order() {
    let mut tokens = TokenInterner::default();
    let mut paths = PathInterner::default();
    let root = id(&mut tokens, &mut paths, "/");
    let zed = id(&mut tokens, &mut paths, "/Zed");
    let alpha = id(&mut tokens, &mut paths, "/Alpha");
    let beta = id(&mut tokens, &mut paths, "/Alpha/Beta");
    let aardvark = id(&mut tokens, &mut paths, "/Alpha/Aardvark");
    let orphan = id(&mut tokens, &mut paths, "/Missing/Child");
    let prims = [zed, beta, root, alpha, aardvark, orphan];
    let index = build_children_index(&tokens, &mut paths, &prims);
    assert_eq!(index.children_of(root).unwrap(), &vec![alpha, zed]);
    assert_eq!(index.children_of(alpha).unwrap(), &vec![aardvark, beta]);
    assert!(index.children_of(zed).is_none());
    let mut parents = index.parents();
    parents.sort();
    let mut expected = vec![root, alpha];
    expected.sort();
    assert_eq!(parents, expected);
    // The parent of the orphan was interned on the way.
    assert!(paths.lookup(&Path::parse_absolute("/Missing", &mut tokens).unwrap()).is_some());
}

#[test]
fn traverse_walks_in_preorder() {
    let mut tokens = TokenInterner::default();
    let mut paths = PathInterner::default();
    let root = id(&mut tokens, &mut paths, "/");
    let b = id(&mut tokens, &mut paths, "/B");
    let a = id(&mut tokens, &mut paths, "/A");
    let a2 = id(&mut tokens, &mut paths, "/A/Two");
    let a1 = id(&mut tokens, &mut paths, "/A/One");
    let index = build_children_index(&tokens, &mut paths, &[root, b, a, a2, a1]);
    let mut walk = Traverse::new(&index, root);
    let mut seen = Vec::new();
    while let Some(p) = walk.next() {
        seen.push(p);
    }
    assert_eq!(seen, vec![root, a, a1, a2, b]);
    assert_eq!(walk.next(), None);
}
