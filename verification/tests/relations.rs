use typescript_rs::relations::TypeRelations;
use typescript_rs::types::{TypeKind, TypeStore};

#[test]
fn literals_are_assignable_to_primitives_and_matching_unions() {
    let mut types = TypeStore::new();
    let open = types.intern(TypeKind::StringLiteral("open".to_owned()));
    let closed = types.intern(TypeKind::StringLiteral("closed".to_owned()));
    let pending = types.intern(TypeKind::StringLiteral("pending".to_owned()));
    let status = types.union(&[open, closed]);
    let string = types.primitives().string;
    let mut relations = TypeRelations::default();

    assert!(relations.is_assignable(&types, open, status));
    assert!(relations.is_assignable(&types, open, string));
    assert!(!relations.is_assignable(&types, pending, status));
}

#[test]
fn top_and_bottom_types_relate_to_everything() {
    let mut types = TypeStore::new();
    let p = types.primitives();
    let text = types.intern(TypeKind::StringLiteral("x".to_owned()));
    let mut relations = TypeRelations::new();
    assert!(relations.is_assignable(&types, p.any, p.number));
    assert!(relations.is_assignable(&types, p.never, text));
    assert!(relations.is_assignable(&types, p.number, p.unknown));
    assert!(relations.is_assignable(&types, text, p.any));
    assert!(!relations.is_assignable(&types, p.unknown, p.number));
    assert!(!relations.is_assignable(&types, p.number, p.string));
    assert!(!relations.is_assignable(&types, p.string, text));
}

#[test]
fn a_union_source_needs_every_member_assignable() {
    let mut types = TypeStore::new();
    let p = types.primitives();
    let a = types.intern(TypeKind::StringLiteral("a".to_owned()));
    let b = types.intern(TypeKind::StringLiteral("b".to_owned()));
    let both = types.union(&[a, b]);
    let mixed = types.union(&[a, p.number]);
    let mut relations = TypeRelations::new();
    assert!(relations.is_assignable(&types, both, p.string));
    assert!(!relations.is_assignable(&types, mixed, p.string));
    assert!(relations.is_assignable(&types, mixed, mixed));
    let wide = types.union(&[p.string, p.number]);
    assert!(relations.is_assignable(&types, mixed, wide));
    // Results cached before the store grew stay valid afterwards.
    assert!(relations.is_assignable(&types, both, p.string));
}
