use core::cmp::Ordering;

use layerstack::interner::TokenInterner;
use layerstack::path::{Path, PathError, PathId, PathInterner};

#[test]
fn parse_root_and_display() {
    let mut tokens = TokenInterner::default();
    let root = Path::parse_absolute("/", &mut tokens).unwrap();
    assert_eq!(root.depth(), 0);
    assert_eq!(root.display(&tokens), "/");
    assert_eq!(root.segments().len(), 0);
    assert_eq!(tokens.len(), 0);
    let built = Path::root();
    assert_eq!(built.depth(), 0);
}

#[test]
fn parse_segments_and_display() {
    let mut tokens = TokenInterner::default();
    let p = Path::parse_absolute("/World/Geom/Mesh", &mut tokens).unwrap();
    assert_eq!(p.depth(), 3);
    assert_eq!(p.display(&tokens), "/World/Geom/Mesh");
    assert_eq!(tokens.resolve(p.leaf().unwrap()), "Mesh");
    assert_eq!(tokens.len(), 3);
}

#[test]
fn path_parse_errors() {
    let mut tokens = TokenInterner::default();
    assert_eq!(
        Path::parse_absolute("World", &mut tokens).unwrap_err(),
        PathError::NotAbsolute
    );
    assert_eq!(
        Path::parse_absolute("", &mut tokens).unwrap_err(),
        PathError::NotAbsolute
    );
    assert_eq!(
        Path::parse_absolute("/A//B", &mut tokens).unwrap_err(),
        PathError::EmptySegment
    );
    assert_eq!(
        Path::parse_absolute("/A/", &mut tokens).unwrap_err(),
        PathError::EmptySegment
    );
}

#[test]
fn parent_prefix_strip_and_join() {
    let mut tokens = TokenInterner::default();
    let a = Path::parse_absolute("/A", &mut tokens).unwrap();
    let abc = Path::parse_absolute("/A/B/C", &mut tokens).unwrap();
    let ab = abc.parent().unwrap();
    assert_eq!(ab.display(&tokens), "/A/B");
    assert!(Path::root().parent().is_none());
    assert!(a.is_prefix_of(&abc));
    assert!(!abc.is_prefix_of(&a));
    let rest = abc.strip_prefix(&a).unwrap().to_vec();
    assert_eq!(rest.len(), 2);
    let rejoined = a.join(&rest);
    assert_eq!(rejoined.display(&tokens), "/A/B/C");
    assert_eq!(rejoined, abc);
    let other = Path::parse_absolute("/X", &mut tokens).unwrap();
    assert!(abc.strip_prefix(&other).is_none());
}

#[test]
fn ordering_by_token_text() {
    let mut tokens = TokenInterner::default();
    let b = Path::parse_absolute("/b", &mut tokens).unwrap();
    let a = Path::parse_absolute("/a", &mut tokens).unwrap();
    let ab = Path::parse_absolute("/a/b", &mut tokens).unwrap();
    assert_eq!(a.cmp_with_tokens(&b, &tokens), Ordering::Less);
    assert_eq!(b.cmp_with_tokens(&a, &tokens), Ordering::Greater);
    assert_eq!(a.cmp_with_tokens(&ab, &tokens), Ordering::Less);
    assert_eq!(ab.cmp_with_tokens(&ab, &tokens), Ordering::Equal);
}

#[test]
fn path_interner_dedups() {
    let mut tokens = TokenInterner::default();
    let mut paths = PathInterner::default();
    let p = Path::parse_absolute("/A/B", &mut tokens).unwrap();
    let q = Path::parse_absolute("/A/B", &mut tokens).unwrap();
    let id1 = paths.intern(p.clone());
    let id2 = paths.intern(q);
    assert_eq!(id1, id2);
    assert_eq!(paths.len(), 1);
    assert_eq!(paths.lookup(&p), Some(id1));
    assert_eq!(paths.resolve(id1), &p);
    let r = Path::parse_absolute("/A", &mut tokens).unwrap();
    assert_eq!(paths.lookup(&r), None);
    let id3 = paths.intern(r);
    assert_ne!(id3, id1);
    assert_eq!(id3.get(), 1);
}

#[test]
fn path_id_raw_round_trip() {
    assert_eq!(PathId::from_raw(17).get(), 17);
}

#[test]
fn token_interner_dedups() {
    let mut tokens = TokenInterner::default();
    let a = tokens.intern("alpha");
    let b = tokens.intern("beta");
    let a2 = tokens.intern("alpha");
    assert_eq!(a, a2);
    assert_ne!(a, b);
    assert_eq!(tokens.len(), 2);
    assert_eq!(tokens.resolve(b), "beta");
    assert_eq!(tokens.lookup("beta"), Some(b));
    assert_eq!(tokens.lookup("gamma"), None);
    assert_eq!(a.get(), 0);
    assert_eq!(b.get(), 1);
}

#[test]
fn display_of_parse_gives_back_text() {
    let mut tokens = TokenInterner::default();
    for text in ["/", "/A", "/World/Geom/Mesh", "/a b/c.d"] {
        let p = Path::parse_absolute(text, &mut tokens).unwrap();
        assert_eq!(p.display(&tokens), text);
    }
}

#[test]
fn namespace_order_is_antisymmetric_and_transitive() {
    let mut tokens = TokenInterner::default();
    let texts = ["/a", "/a/b", "/b", "/B", "/a/a"];
    let ps: Vec<Path> = texts
        .iter()
        .map(|t| Path::parse_absolute(t, &mut tokens).unwrap())
        .collect();
    for a in &ps {
        for b in &ps {
            assert_eq!(
                a.cmp_with_tokens(b, &tokens),
                b.cmp_with_tokens(a, &tokens).reverse()
            );
            for c in &ps {
                if a.cmp_with_tokens(b, &tokens) == Ordering::Less
                    && b.cmp_with_tokens(c, &tokens) == Ordering::Less
                {
                    assert_eq!(a.cmp_with_tokens(c, &tokens), Ordering::Less);
                }
            }
        }
    }
}

#[test]
fn interning_twice_is_stable() {
    let mut tokens = TokenInterner::default();
    let first = tokens.intern("x");
    let _ = tokens.intern("y");
    let again = tokens.intern("x");
    assert_eq!(first, again);
    assert_eq!(tokens.len(), 2);
    assert_eq!(tokens.resolve(first), "x");
}

#[test]
fn segment_text_decides_before_count_and_token_ids() {
    let mut tokens = TokenInterner::default();
    let b = Path::parse_absolute("/B", &mut tokens).unwrap();
    let a = Path::parse_absolute("/A/Z", &mut tokens).unwrap();
    let c = Path::parse_absolute("/A", &mut tokens).unwrap();
    assert_eq!(a.cmp_with_tokens(&b, &tokens), Ordering::Less);
    assert_eq!(c.cmp_with_tokens(&a, &tokens), Ordering::Less);
    assert_eq!(a.cmp_with_tokens(&a, &tokens), Ordering::Equal);
    assert_eq!(tokens.len(), 3);
}

#[test]
fn not_absolute_leaves_tokens_unchanged() {
    let mut tokens = TokenInterner::default();
    tokens.intern("Keep");
    assert_eq!(
        Path::parse_absolute("A/B", &mut tokens).unwrap_err(),
        PathError::NotAbsolute
    );
    assert_eq!(tokens.len(), 1);
}
