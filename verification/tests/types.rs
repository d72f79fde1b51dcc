use typescript_rs::types::{DisplayPiece, NumberLiteral, TypeKind, TypeStore};

fn render(pieces: Vec<DisplayPiece>) -> String {
    let mut out = String::new();
    for piece in pieces {
        match piece {
            DisplayPiece::Text(text) => out.push_str(&text),
            DisplayPiece::Number(number) => out.push_str(&f64::from_bits(number.bits()).to_string()),
        }
    }
    out
}

fn number_literal(value: f64) -> NumberLiteral {
    NumberLiteral::from_bits(value.to_bits())
}

#[test]
fn primitives_have_canonical_ids() {
    let mut types = TypeStore::new();
    let primitives = types.primitives();

    assert_eq!(types.intern(TypeKind::String), primitives.string);
    assert_eq!(types.kind(primitives.number), Some(&TypeKind::Number));
    assert_eq!(types.len(), 10);
}

#[test]
fn structural_types_are_deduplicated() {
    let mut types = TypeStore::new();
    let first = types.intern(TypeKind::StringLiteral("tsrs".to_owned()));
    let second = types.intern(TypeKind::StringLiteral("tsrs".to_owned()));

    assert_eq!(first, second);
    assert_eq!(types.len(), 11);
    assert_eq!(
        types.kind(first),
        Some(&TypeKind::StringLiteral("tsrs".to_owned()))
    );
}

#[test]
fn unions_are_flattened_sorted_and_deduplicated() {
    let mut types = TypeStore::new();
    let string = types.primitives().string;
    let number = types.primitives().number;
    let first = types.union(&[string, number, string]);
    let second = types.union(&[number, string]);
    let never = types.primitives().never;
    let nested = types.union(&[first, never]);

    assert_eq!(first, second);
    assert_eq!(first, nested);
    assert_eq!(render(types.display(first).pieces()), "number | string");
}

#[test]
fn number_literals_canonicalize_negative_zero() {
    assert_eq!(number_literal(-0.0), number_literal(0.0));
}

#[test]
fn union_with_any_is_any_and_with_unknown_is_unknown() {
    let mut types = TypeStore::new();
    let p = types.primitives();
    let literal = types.intern(TypeKind::StringLiteral("a".to_owned()));
    assert_eq!(types.union(&[literal, p.any, p.unknown]), p.any);
    assert_eq!(types.union(&[literal, p.unknown]), p.unknown);
    assert_eq!(types.union(&[]), p.never);
    assert_eq!(types.union(&[literal, literal]), literal);
    assert_eq!(types.len(), 11);
}

#[test]
fn nested_unions_flatten_into_one_identity() {
    let mut types = TypeStore::new();
    let p = types.primitives();
    let a = types.intern(TypeKind::StringLiteral("a".to_owned()));
    let b = types.intern(TypeKind::StringLiteral("b".to_owned()));
    let inner = types.union(&[a, b]);
    let outer = types.union(&[inner, p.number]);
    let flat = types.union(&[p.number, b, a]);
    assert_eq!(outer, flat);
    assert_eq!(
        types.kind(outer),
        Some(&TypeKind::Union(vec![p.number, a, b]))
    );
}

#[test]
fn literals_widen_to_their_primitives() {
    let mut types = TypeStore::new();
    let p = types.primitives();
    let yes = types.intern(TypeKind::BooleanLiteral(true));
    let seven = types.intern(TypeKind::NumberLiteral(number_literal(7.0)));
    let big = types.intern(TypeKind::BigIntLiteral("12".to_owned()));
    let text = types.intern(TypeKind::StringLiteral("x".to_owned()));
    assert_eq!(types.widen_literal(yes), p.boolean);
    assert_eq!(types.widen_literal(seven), p.number);
    assert_eq!(types.widen_literal(big), p.bigint);
    assert_eq!(types.widen_literal(text), p.string);
    assert_eq!(types.widen_literal(p.null), p.null);
}

#[test]
fn kinds_render_like_typescript() {
    let mut types = TypeStore::new();
    let p = types.primitives();
    let yes = types.intern(TypeKind::BooleanLiteral(true));
    let big = types.intern(TypeKind::BigIntLiteral("12".to_owned()));
    let text = types.intern(TypeKind::StringLiteral("x".to_owned()));
    let half = types.intern(TypeKind::NumberLiteral(number_literal(0.5)));
    let union = types.union(&[yes, big, text, half, p.null]);
    assert_eq!(render(types.display(union).pieces()), "null | true | 12n | \"x\" | 0.5");
    assert_eq!(render(types.display(p.void).pieces()), "void");
    assert_eq!(
        render(TypeKind::Union(vec![p.null, p.void]).pieces()),
        "union(2 members)"
    );
}

#[test]
fn unknown_identities_render_as_invalid_and_have_no_kind() {
    let mut other = TypeStore::new();
    let foreign = other.intern(TypeKind::StringLiteral("elsewhere".to_owned()));
    let types = TypeStore::new();
    assert_eq!(types.kind(foreign), None);
    assert_eq!(render(types.display(foreign).pieces()), "<invalid type>");
    assert!(!types.is_empty());
    assert_eq!(foreign.index(), 10);
}

#[test]
fn unions_keep_their_identity_across_later_calls() {
    let mut store = TypeStore::new();
    let p = store.primitives();
    let open = store.intern(TypeKind::StringLiteral("open".to_owned()));
    let union = store.union(&[p.number, open]);
    let array = store.intern(TypeKind::Array(union));
    let other = store.union(&[p.boolean, p.string]);
    assert_ne!(array, other);
    let len = store.len();
    assert_eq!(store.union(&[open, p.number, open]), union);
    assert_eq!(store.union(&[p.number, open, p.never]), union);
    assert_eq!(store.union(&[union]), union);
    assert_eq!(store.union(&[union, p.boolean]), store.union(&[p.number, open, p.boolean]));
    assert_eq!(store.len(), len + 1);
}

#[test]
fn interning_later_gives_the_same_identity() {
    let mut store = TypeStore::new();
    let id = store.intern(TypeKind::StringLiteral("tsrs".to_owned()));
    let other = store.intern(TypeKind::StringLiteral("other".to_owned()));
    assert_ne!(id, other);
    assert_eq!(store.kind(id), Some(&TypeKind::StringLiteral("tsrs".to_owned())));
    assert_eq!(store.intern(TypeKind::StringLiteral("tsrs".to_owned())), id);
}
