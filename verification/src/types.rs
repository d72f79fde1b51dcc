//! Interned representations of TypeScript types.
//!
//! Every type lives at one index of a [`TypeStore`]; structurally equal
//! types share one index, and the ten primitive types occupy the first ten
//! slots in a fixed order.

use vstd::prelude::*;

use crate::text::{decimal, push_char, push_decimal};

verus! {

/// A compact identity for a type interned in a [`TypeStore`].
#[derive(Clone, Copy, Debug, PartialEq, Eq, Hash, PartialOrd, Ord, Structural)]
pub struct TypeId(u32);

impl TypeId {
    /// The store slot that this identity names.
    pub closed spec fn idx(self) -> u32 {
        self.0
    }

    /// The identity of store slot `index`.
    pub closed spec fn from_index(index: u32) -> TypeId {
        TypeId(index)
    }

    /// The zero-based store index represented by this identity.
    pub fn index(self) -> (r: u32)
        ensures
            r == self.idx(),
    {
        self.0
    }
}

/// An identity is determined by its index, and every index names one identity.
pub broadcast proof fn lemma_type_id_index(a: TypeId, b: TypeId)
    ensures
        (#[trigger] a.idx() == #[trigger] b.idx()) == (a == b),
{
}

/// The identity built from an index has that index.
pub broadcast proof fn lemma_type_id_from_index(i: u32)
    ensures
        #[trigger] TypeId::from_index(i).idx() == i,
{
}

pub broadcast group group_type_id {
    lemma_type_id_index,
    lemma_type_id_from_index,
}

/// The bit pattern that the literal `-0` has; it denotes the same literal type as `0`.
pub open spec fn negative_zero_bits() -> u64 {
    0x8000_0000_0000_0000u64
}

/// The canonical bit pattern of a numeric literal: negative zero becomes zero.
pub open spec fn canonical_number_bits(bits: u64) -> u64 {
    if bits == negative_zero_bits() {
        0
    } else {
        bits
    }
}

/// An equality- and hash-safe JavaScript number used as a literal type key.
///
/// It holds the IEEE-754 bit pattern of the number, with negative zero
/// canonicalized to zero.
#[derive(Clone, Copy, Debug, PartialEq, Eq, Hash, Structural)]
pub struct NumberLiteral(u64);

impl NumberLiteral {
    /// The bit pattern held by this literal.
    pub closed spec fn spec_bits(self) -> u64 {
        self.0
    }

    /// Construct a numeric literal from the bit pattern of a number,
    /// canonicalizing negative zero to zero.
    pub fn from_bits(bits: u64) -> (r: NumberLiteral)
        ensures
            r.spec_bits() == canonical_number_bits(bits),
    {
        if bits == 0x8000_0000_0000_0000u64 {
            NumberLiteral(0)
        } else {
            NumberLiteral(bits)
        }
    }

    /// Recover the bit pattern of the number.
    pub fn bits(self) -> (r: u64)
        ensures
            r == self.spec_bits(),
    {
        self.0
    }
}

/// Two literals are equal exactly when their bit patterns are.
pub broadcast proof fn lemma_number_literal_bits(a: NumberLiteral, b: NumberLiteral)
    ensures
        (#[trigger] a.spec_bits() == #[trigger] b.spec_bits()) == (a == b),
{
}

/// The mathematical value of a [`TypeKind`].
pub enum KindView {
    Any,
    Unknown,
    Never,
    Void,
    Undefined,
    Null,
    Boolean,
    Number,
    BigInt,
    String,
    BooleanLiteral(bool),
    NumberLiteral(u64),
    BigIntLiteral(Seq<char>),
    StringLiteral(Seq<char>),
    Union(Seq<TypeId>),
    Array(TypeId),
    Object(Seq<PropertyView>),
}

/// The mathematical value of an [`ObjectTypeProperty`].
pub struct PropertyView {
    pub name: Seq<char>,
    pub type_id: TypeId,
    pub optional: bool,
}

/// One named property of an object type.
#[derive(Clone, Debug, PartialEq, Eq, Hash)]
pub struct ObjectTypeProperty {
    pub name: String,
    pub type_id: TypeId,
    pub optional: bool,
}

impl View for ObjectTypeProperty {
    type V = PropertyView;

    open spec fn view(&self) -> PropertyView {
        PropertyView { name: self.name@, type_id: self.type_id, optional: self.optional }
    }
}

/// The views of a list of object properties.
pub open spec fn properties_view(ps: Seq<ObjectTypeProperty>) -> Seq<PropertyView> {
    ps.map_values(|p: ObjectTypeProperty| p@)
}

/// The structural key for an interned TypeScript type.
///
/// Keeping this key structural ensures equivalent types share one compact
/// [`TypeId`].
#[derive(Clone, Debug, PartialEq, Eq, Hash)]
#[non_exhaustive]
pub enum TypeKind {
    Any,
    Unknown,
    Never,
    Void,
    Undefined,
    Null,
    Boolean,
    Number,
    BigInt,
    String,
    BooleanLiteral(bool),
    NumberLiteral(NumberLiteral),
    BigIntLiteral(String),
    StringLiteral(String),
    Union(Vec<TypeId>),
    Array(TypeId),
    Object(Vec<ObjectTypeProperty>),
}

impl View for TypeKind {
    type V = KindView;

    open spec fn view(&self) -> KindView {
        match self {
            TypeKind::Any => KindView::Any,
            TypeKind::Unknown => KindView::Unknown,
            TypeKind::Never => KindView::Never,
            TypeKind::Void => KindView::Void,
            TypeKind::Undefined => KindView::Undefined,
            TypeKind::Null => KindView::Null,
            TypeKind::Boolean => KindView::Boolean,
            TypeKind::Number => KindView::Number,
            TypeKind::BigInt => KindView::BigInt,
            TypeKind::String => KindView::String,
            TypeKind::BooleanLiteral(b) => KindView::BooleanLiteral(*b),
            TypeKind::NumberLiteral(n) => KindView::NumberLiteral(n.spec_bits()),
            TypeKind::BigIntLiteral(s) => KindView::BigIntLiteral(s@),
            TypeKind::StringLiteral(s) => KindView::StringLiteral(s@),
            TypeKind::Union(members) => KindView::Union(members@),
            TypeKind::Array(element) => KindView::Array(*element),
            TypeKind::Object(properties) => KindView::Object(properties_view(properties@)),
        }
    }
}

/// The primitive kinds, in the order of their fixed store slots.
pub open spec fn primitive_kinds() -> Seq<KindView> {
    seq![
        KindView::Any,
        KindView::Unknown,
        KindView::Never,
        KindView::Void,
        KindView::Undefined,
        KindView::Null,
        KindView::Boolean,
        KindView::Number,
        KindView::BigInt,
        KindView::String,
    ]
}

/// The number of primitive types.
pub open spec fn primitive_count() -> nat {
    10
}

/// The fixed slot of a primitive kind, or `None` for a structural kind.
pub open spec fn primitive_index(k: KindView) -> Option<u32> {
    match k {
        KindView::Any => Some(0u32),
        KindView::Unknown => Some(1u32),
        KindView::Never => Some(2u32),
        KindView::Void => Some(3u32),
        KindView::Undefined => Some(4u32),
        KindView::Null => Some(5u32),
        KindView::Boolean => Some(6u32),
        KindView::Number => Some(7u32),
        KindView::BigInt => Some(8u32),
        KindView::String => Some(9u32),
        _ => None,
    }
}

/// Canonical identities for the built-in primitive types.
#[derive(Clone, Copy, Debug, PartialEq, Eq, Structural)]
pub struct PrimitiveTypes {
    pub any: TypeId,
    pub unknown: TypeId,
    pub never: TypeId,
    pub void: TypeId,
    pub undefined: TypeId,
    pub null: TypeId,
    pub boolean: TypeId,
    pub number: TypeId,
    pub bigint: TypeId,
    pub string: TypeId,
}

/// The primitive identities: slot `i` holds `primitive_kinds()[i]`.
pub open spec fn primitive_ids() -> PrimitiveTypes {
    PrimitiveTypes {
        any: TypeId::from_index(0),
        unknown: TypeId::from_index(1),
        never: TypeId::from_index(2),
        void: TypeId::from_index(3),
        undefined: TypeId::from_index(4),
        null: TypeId::from_index(5),
        boolean: TypeId::from_index(6),
        number: TypeId::from_index(7),
        bigint: TypeId::from_index(8),
        string: TypeId::from_index(9),
    }
}

/// Whether `id` names a slot of the store whose contents are `v`.
pub open spec fn valid_id(v: Seq<KindView>, id: TypeId) -> bool {
    id.idx() < v.len()
}

/// The well-formedness of a store's contents: the primitives sit in their
/// fixed slots, no kind occurs twice, every union names only earlier slots,
/// and every slot index fits a `u32`.
pub open spec fn store_wf(v: Seq<KindView>) -> bool {
    &&& primitive_count() <= v.len() <= 0x1_0000_0000
    &&& forall|i: int| 0 <= i < primitive_count() ==> v[i] == #[trigger] primitive_kinds()[i]
    &&& forall|i: int, j: int| 0 <= i < j < v.len() ==> v[i] != v[j]
    &&& forall|i: int| #![trigger v[i]]
        0 <= i < v.len() ==> (v[i] matches KindView::Union(ms) ==> forall|k: int|
            0 <= k < ms.len() ==> (#[trigger] ms[k]).idx() < i)
    &&& forall|i: int| #![trigger v[i]] 0 <= i < v.len() ==> parts_below(v[i], i)
}

/// Whether the element of an array kind, and the property types of an
/// object kind, lie below slot `bound`.
pub open spec fn parts_below(k: KindView, bound: int) -> bool {
    &&& (k matches KindView::Array(e) ==> e.idx() < bound)
    &&& (k matches KindView::Object(ps) ==> forall|j: int|
        0 <= j < ps.len() ==> (#[trigger] ps[j]).type_id.idx() < bound)
}

/// Whether `k` may be added to the store whose contents are `v`: a union
/// may only name slots that already exist.
pub open spec fn kind_fits(v: Seq<KindView>, k: KindView) -> bool {
    &&& (k matches KindView::Union(ms) ==> forall|i: int|
        0 <= i < ms.len() ==> valid_id(v, #[trigger] ms[i]))
    &&& parts_below(k, v.len() as int)
}

/// The store's contents after interning `k`.
pub open spec fn interned_view(v: Seq<KindView>, k: KindView) -> Seq<KindView> {
    if v.contains(k) {
        v
    } else {
        v.push(k)
    }
}

/// The identity that interning `k` gives.
pub open spec fn interned_id(v: Seq<KindView>, k: KindView) -> TypeId {
    if v.contains(k) {
        TypeId::from_index(v.index_of(k) as u32)
    } else {
        TypeId::from_index(v.len() as u32)
    }
}

/// Whether interning `k` has room: either `k` is already present or its new
/// index fits a `u32`.
pub open spec fn intern_fits(v: Seq<KindView>, k: KindView) -> bool {
    v.contains(k) || v.len() <= 0xFFFF_FFFF
}

/// Owns and deduplicates all types for one checker program generation.
#[derive(Debug)]
pub struct TypeStore {
    /// Slot `i` holds the kind of the type with index `i`; the primitives
    /// occupy the first ten slots.
    kinds: Vec<TypeKind>,
}

impl View for TypeStore {
    type V = Seq<KindView>;

    closed spec fn view(&self) -> Seq<KindView> {
        self.kinds@.map_values(|k: TypeKind| k@)
    }
}

/// Exact equality of two kinds.
fn kinds_equal(a: &TypeKind, b: &TypeKind) -> (r: bool)
    ensures
        r == (a@ == b@),
{
    match (a, b) {
        (TypeKind::Any, TypeKind::Any) => true,
        (TypeKind::Unknown, TypeKind::Unknown) => true,
        (TypeKind::Never, TypeKind::Never) => true,
        (TypeKind::Void, TypeKind::Void) => true,
        (TypeKind::Undefined, TypeKind::Undefined) => true,
        (TypeKind::Null, TypeKind::Null) => true,
        (TypeKind::Boolean, TypeKind::Boolean) => true,
        (TypeKind::Number, TypeKind::Number) => true,
        (TypeKind::BigInt, TypeKind::BigInt) => true,
        (TypeKind::String, TypeKind::String) => true,
        (TypeKind::BooleanLiteral(x), TypeKind::BooleanLiteral(y)) => *x == *y,
        (TypeKind::NumberLiteral(x), TypeKind::NumberLiteral(y)) => x.0 == y.0,
        (TypeKind::BigIntLiteral(x), TypeKind::BigIntLiteral(y)) => strings_equal(x, y),
        (TypeKind::StringLiteral(x), TypeKind::StringLiteral(y)) => strings_equal(x, y),
        (TypeKind::Union(x), TypeKind::Union(y)) => ids_equal(x, y),
        (TypeKind::Array(x), TypeKind::Array(y)) => *x == *y,
        (TypeKind::Object(x), TypeKind::Object(y)) => properties_equal(x, y),
        _ => false,
    }
}

/// Exact equality of two strings.
fn strings_equal(a: &String, b: &String) -> (r: bool)
    ensures
        r == (a@ == b@),
{
    *a == *b
}

/// Exact equality of two identity lists.
fn ids_equal(a: &Vec<TypeId>, b: &Vec<TypeId>) -> (r: bool)
    ensures
        r == (a@ == b@),
{
    if a.len() != b.len() {
        return false;
    }
    let mut i: usize = 0;
    while i < a.len()
        invariant
            a@.len() == b@.len(),
            i <= a@.len(),
            forall|k: int| 0 <= k < i ==> a@[k] == b@[k],
        decreases a@.len() - i,
    {
        if a[i] != b[i] {
            assert(a@[i as int] != b@[i as int]);
            return false;
        }
        i = i + 1;
    }
    assert(a@ =~= b@);
    true
}

/// Exact equality of two property lists.
fn properties_equal(a: &Vec<ObjectTypeProperty>, b: &Vec<ObjectTypeProperty>) -> (r: bool)
    ensures
        r == (properties_view(a@) == properties_view(b@)),
{
    if a.len() != b.len() {
        assert(properties_view(a@).len() != properties_view(b@).len());
        return false;
    }
    let mut i: usize = 0;
    while i < a.len()
        invariant
            a@.len() == b@.len(),
            i <= a@.len(),
            forall|k: int| 0 <= k < i ==> a@[k]@ == b@[k]@,
        decreases a@.len() - i,
    {
        let same = strings_equal(&a[i].name, &b[i].name) && a[i].type_id == b[i].type_id
            && a[i].optional == b[i].optional;
        if !same {
            assert(properties_view(a@)[i as int] != properties_view(b@)[i as int]);
            return false;
        }
        i = i + 1;
    }
    assert(properties_view(a@) =~= properties_view(b@));
    true
}

/// The fixed identity of a primitive kind.
pub fn primitive_id(kind: &TypeKind) -> (r: Option<TypeId>)
    ensures
        r == (match primitive_index(kind@) {
            Some(i) => Some(TypeId::from_index(i)),
            None => None::<TypeId>,
        }),
{
    match kind {
        TypeKind::Any => Some(TypeId(0)),
        TypeKind::Unknown => Some(TypeId(1)),
        TypeKind::Never => Some(TypeId(2)),
        TypeKind::Void => Some(TypeId(3)),
        TypeKind::Undefined => Some(TypeId(4)),
        TypeKind::Null => Some(TypeId(5)),
        TypeKind::Boolean => Some(TypeId(6)),
        TypeKind::Number => Some(TypeId(7)),
        TypeKind::BigInt => Some(TypeId(8)),
        TypeKind::String => Some(TypeId(9)),
        _ => None,
    }
}

/// A primitive kind sits in its fixed slot of every well-formed store.
proof fn lemma_primitive_slot(v: Seq<KindView>, k: KindView)
    requires
        store_wf(v),
        primitive_index(k) is Some,
    ensures
        v.contains(k),
        v.index_of(k) == primitive_index(k)->0,
        v[primitive_index(k)->0 as int] == k,
{
    let i = primitive_index(k)->0 as int;
    assert(primitive_kinds()[i] == k);
    assert(v[i] == k);
    lemma_index_of_unique(v, i);
}

/// In a sequence without repeats, the first index of the element at `i` is `i`.
proof fn lemma_index_of_unique(v: Seq<KindView>, i: int)
    requires
        0 <= i < v.len(),
        forall|a: int, b: int| 0 <= a < b < v.len() ==> v[a] != v[b],
    ensures
        v.contains(v[i]),
        v.index_of(v[i]) == i,
{
    assert(v.contains(v[i]));
    let j = v.index_of(v[i]);
    assert(v[j] == v[i]);
}

impl TypeStore {
    /// Whether the store is well-formed.
    pub open spec fn wf(&self) -> bool {
        store_wf(self@)
    }

    /// Construct a store with stable canonical identities for primitive types.
    pub fn new() -> (r: TypeStore)
        ensures
            r@ == primitive_kinds(),
            r.wf(),
    {
        let mut kinds: Vec<TypeKind> = Vec::new();
        kinds.push(TypeKind::Any);
        kinds.push(TypeKind::Unknown);
        kinds.push(TypeKind::Never);
        kinds.push(TypeKind::Void);
        kinds.push(TypeKind::Undefined);
        kinds.push(TypeKind::Null);
        kinds.push(TypeKind::Boolean);
        kinds.push(TypeKind::Number);
        kinds.push(TypeKind::BigInt);
        kinds.push(TypeKind::String);
        let r = TypeStore { kinds };
        assert(r@ =~= primitive_kinds());
        r
    }

    /// Return the canonical primitive type identities.
    pub fn primitives(&self) -> (r: PrimitiveTypes)
        ensures
            r == primitive_ids(),
    {
        PrimitiveTypes {
            any: TypeId(0),
            unknown: TypeId(1),
            never: TypeId(2),
            void: TypeId(3),
            undefined: TypeId(4),
            null: TypeId(5),
            boolean: TypeId(6),
            number: TypeId(7),
            bigint: TypeId(8),
            string: TypeId(9),
        }
    }

    /// Intern a structural type key and return its canonical identity.
    pub fn intern(&mut self, kind: TypeKind) -> (r: TypeId)
        requires
            old(self).wf(),
            kind_fits(old(self)@, kind@),
            intern_fits(old(self)@, kind@),
        ensures
            final(self).wf(),
            final(self)@ == interned_view(old(self)@, kind@),
            r == interned_id(old(self)@, kind@),
            valid_id(final(self)@, r),
            final(self)@[r.idx() as int] == kind@,
    {
        let ghost v = self@;
        if let Some(id) = primitive_id(&kind) {
            proof {
                lemma_primitive_slot(v, kind@);
            }
            return id;
        }
        proof {
            assert forall|k: int| 0 <= k < 10 implies v[k] != kind@ by {
                assert(v[k] == primitive_kinds()[k]);
            }
        }
        let mut i: usize = 10;
        while i < self.kinds.len()
            invariant
                self@ == v,
                store_wf(v),
                primitive_index(kind@) is None,
                10 <= i <= v.len(),
                forall|k: int| 0 <= k < i ==> v[k] != kind@,
            decreases v.len() - i,
        {
            if kinds_equal(&self.kinds[i], &kind) {
                proof {
                    lemma_index_of_unique(v, i as int);
                }
                return TypeId(i as u32);
            }
            i = i + 1;
        }
        assert(!v.contains(kind@));
        let id = TypeId(self.kinds.len() as u32);
        self.kinds.push(kind);
        proof {
            let w = self@;
            assert(w =~= v.push(kind@));
            assert forall|a: int, b: int| 0 <= a < b < w.len() implies w[a] != w[b] by {
                if b == v.len() {
                    assert(v[a] == w[a]);
                }
            }
            assert forall|a: int| #![trigger w[a]] 0 <= a < w.len() implies (w[a] matches KindView::Union(ms) ==> forall|k: int|
                0 <= k < ms.len() ==> (#[trigger] ms[k]).idx() < a) by {
                if a < v.len() {
                    assert(w[a] == v[a]);
                }
            }
            assert forall|a: int| #![trigger w[a]] 0 <= a < w.len() implies parts_below(w[a], a) by {
                if a < v.len() {
                    assert(w[a] == v[a]);
                }
            }
        }
        id
    }

    /// Resolve a type identity to its structural key.
    pub fn kind(&self, id: TypeId) -> (r: Option<&TypeKind>)
        ensures
            match r {
                Some(k) => valid_id(self@, id) && k@ == self@[id.idx() as int],
                None => !valid_id(self@, id),
            },
    {
        let index = id.0 as usize;
        if index < self.kinds.len() {
            Some(&self.kinds[index])
        } else {
            None
        }
    }

    /// Number of unique types currently interned, primitives included.
    pub fn len(&self) -> (r: usize)
        ensures
            r == self@.len(),
    {
        self.kinds.len()
    }

    /// Whether no types have been interned; never true, since the
    /// primitives are always present.
    pub fn is_empty(&self) -> (r: bool)
        requires
            self.wf(),
        ensures
            r == (self@.len() == 0),
            !r,
    {
        false
    }
}


/// The non-union types that a union member stands for: a union at a valid
/// slot stands for the leaves of its members, any other identity for itself.
pub open spec fn member_leaves(v: Seq<KindView>, id: TypeId) -> Set<TypeId>
    decreases id.idx() as int, 1int, 0int,
{
    if valid_id(v, id) && v[id.idx() as int] is Union {
        leaves_of(v, v[id.idx() as int]->Union_0, id.idx() as int)
    } else {
        set![id]
    }
}

/// The leaves of a list of union members that all lie below slot `bound`.
pub open spec fn leaves_of(v: Seq<KindView>, ms: Seq<TypeId>, bound: int) -> Set<TypeId>
    decreases bound, 0int, ms.len() as int,
{
    if ms.len() == 0 {
        Set::empty()
    } else {
        let last = ms.last();
        leaves_of(v, ms.drop_last(), bound) + if (last.idx() as int) < bound {
            member_leaves(v, last)
        } else {
            set![last]
        }
    }
}

/// The primitive identities that union construction treats specially.
pub open spec fn any_id() -> TypeId {
    TypeId::from_index(0)
}

pub open spec fn unknown_id() -> TypeId {
    TypeId::from_index(1)
}

pub open spec fn never_id() -> TypeId {
    TypeId::from_index(2)
}

/// Whether `q` is strictly increasing by index (so sorted and without repeats).
pub open spec fn strictly_increasing(q: Seq<TypeId>) -> bool {
    forall|i: int, j: int| 0 <= i < j < q.len() ==> (#[trigger] q[i]).idx() < (#[trigger] q[j]).idx()
}

/// The members of `s` sorted by index.
pub open spec fn sorted_members(s: Set<TypeId>) -> Seq<TypeId> {
    choose|q: Seq<TypeId>| strictly_increasing(q) && q.to_set() == s
}

/// The members of a normalized union: all leaves except `any`, `unknown` and `never`.
pub open spec fn union_leaves(v: Seq<KindView>, members: Seq<TypeId>) -> Set<TypeId> {
    leaves_of(v, members, v.len() as int).remove(any_id()).remove(unknown_id()).remove(never_id())
}

/// What normalizing a union of `members` yields, before any interning:
/// `Ok(id)` for an existing identity, `Err(kind)` for a union kind to intern.
pub open spec fn union_plan(v: Seq<KindView>, members: Seq<TypeId>) -> Result<TypeId, KindView> {
    let leaves = leaves_of(v, members, v.len() as int);
    let sorted = sorted_members(union_leaves(v, members));
    if leaves.contains(any_id()) {
        Ok(any_id())
    } else if leaves.contains(unknown_id()) {
        Ok(unknown_id())
    } else if sorted.len() == 0 {
        Ok(never_id())
    } else if sorted.len() == 1 {
        Ok(sorted[0])
    } else {
        Err(KindView::Union(sorted))
    }
}

/// The store's contents after building the union of `members`.
pub open spec fn union_view(v: Seq<KindView>, members: Seq<TypeId>) -> Seq<KindView> {
    match union_plan(v, members) {
        Ok(_) => v,
        Err(k) => interned_view(v, k),
    }
}

/// The identity of the union of `members`.
pub open spec fn union_id(v: Seq<KindView>, members: Seq<TypeId>) -> TypeId {
    match union_plan(v, members) {
        Ok(id) => id,
        Err(k) => interned_id(v, k),
    }
}

/// Whether building the union of `members` has room for a new slot.
pub open spec fn union_fits(v: Seq<KindView>, members: Seq<TypeId>) -> bool {
    match union_plan(v, members) {
        Ok(_) => true,
        Err(k) => intern_fits(v, k),
    }
}

/// Two strictly increasing sequences with the same members are equal.
pub proof fn lemma_sorted_unique(p: Seq<TypeId>, q: Seq<TypeId>)
    requires
        strictly_increasing(p),
        strictly_increasing(q),
        p.to_set() == q.to_set(),
    ensures
        p == q,
    decreases p.len(),
{
    broadcast use group_type_id;

    if p.len() == 0 {
        if q.len() > 0 {
            assert(q.to_set().contains(q[0]));
        }
        assert(p =~= q);
    } else {
        assert(p.to_set().contains(p[0]));
        assert(q.to_set().contains(p[0]));
        assert(q.len() > 0);
        assert(q.to_set().contains(q[0]));
        assert(p.to_set().contains(q[0]));
        let a = choose|i: int| 0 <= i < p.len() && p[i] == q[0];
        let b = choose|i: int| 0 <= i < q.len() && q[i] == p[0];
        assert(p[0] == q[0]) by {
            if a > 0 {
                assert(p[0].idx() < p[a].idx());
                if b > 0 {
                    assert(q[0].idx() < q[b].idx());
                }
            } else if b > 0 {
                assert(q[0].idx() < q[b].idx());
                assert(p[0].idx() <= p[a].idx());
            }
        }
        let p1 = p.drop_first();
        let q1 = q.drop_first();
        assert forall|x: TypeId| p1.to_set().contains(x) implies q1.to_set().contains(x) by {
            let i = choose|i: int| 0 <= i < p1.len() && p1[i] == x;
            assert(p[i + 1] == x);
            assert(q.to_set().contains(x));
            let j = choose|j: int| 0 <= j < q.len() && q[j] == x;
            assert(x.idx() > p[0].idx());
            assert(j != 0);
            assert(q1[j - 1] == x);
        }
        assert forall|x: TypeId| q1.to_set().contains(x) implies p1.to_set().contains(x) by {
            let i = choose|i: int| 0 <= i < q1.len() && q1[i] == x;
            assert(q[i + 1] == x);
            assert(p.to_set().contains(x));
            let j = choose|j: int| 0 <= j < p.len() && p[j] == x;
            assert(x.idx() > q[0].idx());
            assert(j != 0);
            assert(p1[j - 1] == x);
        }
        assert(p1.to_set() =~= q1.to_set());
        lemma_sorted_unique(p1, q1);
        assert forall|i: int| 0 <= i < p.len() implies p[i] == q[i] by {
            if i > 0 {
                assert(p1 == p.subrange(1, p.len() as int));
                assert(q1 == q.subrange(1, q.len() as int));
                assert(p[i] == p1[i - 1]);
                assert(q[i] == q1[i - 1]);
            }
        }
        assert(p =~= q);
    }
}

/// Insert `x` into the strictly increasing `v`, unless it is already there.
fn insert_sorted(v: &mut Vec<TypeId>, x: TypeId)
    requires
        strictly_increasing(old(v)@),
    ensures
        strictly_increasing(final(v)@),
        final(v)@.to_set() == old(v)@.to_set().insert(x),
{
    broadcast use group_type_id;

    let ghost w = v@;
    let mut i: usize = 0;
    while i < v.len() && v[i].0 < x.0
        invariant
            v@ == w,
            strictly_increasing(w),
            i <= w.len(),
            forall|k: int| 0 <= k < i ==> (#[trigger] w[k]).idx() < x.idx(),
        decreases w.len() - i,
    {
        i = i + 1;
    }
    if i < v.len() && v[i].0 == x.0 {
        assert(w.to_set().contains(w[i as int]));
        assert(w.to_set().insert(x) =~= w.to_set());
        return;
    }
    v.insert(i, x);
    proof {
        let u = v@;
        assert(u =~= w.insert(i as int, x));
        assert forall|a: int, b: int| 0 <= a < b < u.len() implies (#[trigger] u[a]).idx() < (#[trigger] u[b]).idx() by {
            if a < i && b < i {
                assert(u[a] == w[a] && u[b] == w[b]);
            } else if a < i && b == i {
            } else if a < i {
                assert(u[a] == w[a] && u[b] == w[b - 1]);
                assert(w[a].idx() < x.idx());
                if i < w.len() {
                    assert(w[i as int].idx() > x.idx());
                    assert(w[i as int].idx() <= w[b - 1].idx());
                }
            } else if a == i {
                assert(u[b] == w[b - 1]);
                assert(w[i as int].idx() > x.idx());
                assert(w[i as int].idx() <= w[b - 1].idx());
            } else {
                assert(u[a] == w[a - 1] && u[b] == w[b - 1]);
            }
        }
        assert forall|y: TypeId| u.to_set().contains(y) <==> w.to_set().insert(x).contains(y) by {
            if u.to_set().contains(y) {
                let k = choose|k: int| 0 <= k < u.len() && u[k] == y;
                if k < i {
                    assert(w[k] == y);
                } else if k > i {
                    assert(w[k - 1] == y);
                }
            }
            if w.to_set().contains(y) {
                let k = choose|k: int| 0 <= k < w.len() && w[k] == y;
                if k < i {
                    assert(u[k] == y);
                } else {
                    assert(u[k + 1] == y);
                }
            }
            if y == x {
                assert(u[i as int] == x);
            }
        }
        assert(u.to_set() =~= w.to_set().insert(x));
    }
}


/// A set of leaves without the identities `any`, `unknown` and `never`.
pub open spec fn strip_special(s: Set<TypeId>) -> Set<TypeId> {
    s.remove(any_id()).remove(unknown_id()).remove(never_id())
}

proof fn lemma_strip_union(a: Set<TypeId>, b: Set<TypeId>)
    ensures
        strip_special(a + b) == strip_special(a) + strip_special(b),
{
    assert(strip_special(a + b) =~= strip_special(a) + strip_special(b));
}

impl TypeStore {
    /// Gather into `normalized` the leaves that `id` stands for, and flag
    /// whether they include `any` or `unknown`.
    fn collect_leaves(
        &self,
        id: TypeId,
        normalized: &mut Vec<TypeId>,
        includes_any: &mut bool,
        includes_unknown: &mut bool,
    )
        requires
            self.wf(),
            valid_id(self@, id),
            strictly_increasing(old(normalized)@),
            forall|y: TypeId| old(normalized)@.to_set().contains(y) ==> valid_id(self@, y),
        ensures
            strictly_increasing(final(normalized)@),
            forall|y: TypeId| final(normalized)@.to_set().contains(y) ==> valid_id(self@, y),
            final(normalized)@.to_set() == old(normalized)@.to_set() + strip_special(
                member_leaves(self@, id),
            ),
            *final(includes_any) == (*old(includes_any) || member_leaves(self@, id).contains(
                any_id(),
            )),
            *final(includes_unknown) == (*old(includes_unknown) || member_leaves(
                self@,
                id,
            ).contains(unknown_id())),
        decreases id.idx(),
    {
        broadcast use group_type_id;

        let ghost v = self@;
        let ghost n0 = normalized@.to_set();
        let index = id.0 as usize;
        match &self.kinds[index] {
            TypeKind::Union(members) => {
                let ghost ms = members@;
                assert(v[id.idx() as int] == KindView::Union(ms));
                let mut i: usize = 0;
                while i < members.len()
                    invariant
                        self@ == v,
                        store_wf(v),
                        valid_id(v, id),
                        v[id.idx() as int] == KindView::Union(ms),
                        members@ == ms,
                        i <= ms.len(),
                        strictly_increasing(normalized@),
                        forall|y: TypeId| normalized@.to_set().contains(y) ==> valid_id(v, y),
                        normalized@.to_set() == n0 + strip_special(
                            leaves_of(v, ms.take(i as int), id.idx() as int),
                        ),
                        *includes_any == (*old(includes_any) || leaves_of(
                            v,
                            ms.take(i as int),
                            id.idx() as int,
                        ).contains(any_id())),
                        *includes_unknown == (*old(includes_unknown) || leaves_of(
                            v,
                            ms.take(i as int),
                            id.idx() as int,
                        ).contains(unknown_id())),
                    decreases ms.len() - i,
                {
                    let member = members[i];
                    assert(ms[i as int] == member);
                    assert(ms[i as int].idx() < id.idx()) by {
                        let j = id.idx() as int;
                        assert(0 <= j < v.len());
                        assert(v[j] matches KindView::Union(ns) ==> forall|k: int|
                            0 <= k < ns.len() ==> (#[trigger] ns[k]).idx() < j);
                        assert(v[j]->Union_0 == ms);
                        assert(ms[i as int].idx() < j);
                    }
                    assert(member.idx() < id.idx());
                    assert(valid_id(v, member));
                    let ghost before = normalized@.to_set();
                    self.collect_leaves(member, normalized, includes_any, includes_unknown);
                    proof {
                        let prev = leaves_of(v, ms.take(i as int), id.idx() as int);
                        assert(ms.take(i as int + 1).drop_last() =~= ms.take(i as int));
                        assert(ms.take(i as int + 1).last() == member);
                        assert(leaves_of(v, ms.take(i as int + 1), id.idx() as int) == prev
                            + member_leaves(v, member));
                        lemma_strip_union(prev, member_leaves(v, member));
                        assert(normalized@.to_set() =~= n0 + strip_special(
                            leaves_of(v, ms.take(i as int + 1), id.idx() as int),
                        ));
                    }
                    i = i + 1;
                }
                assert(ms.take(ms.len() as int) =~= ms);
            },
            _ => {
                assert(member_leaves(v, id) == set![id]);
                if id.0 == 0 {
                    *includes_any = true;
                    assert(strip_special(set![id]) =~= Set::<TypeId>::empty());
                    assert(normalized@.to_set() =~= n0 + strip_special(set![id]));
                } else if id.0 == 1 {
                    *includes_unknown = true;
                    assert(strip_special(set![id]) =~= Set::<TypeId>::empty());
                    assert(normalized@.to_set() =~= n0 + strip_special(set![id]));
                } else if id.0 == 2 {
                    assert(strip_special(set![id]) =~= Set::<TypeId>::empty());
                    assert(normalized@.to_set() =~= n0 + strip_special(set![id]));
                } else {
                    insert_sorted(normalized, id);
                    assert(strip_special(set![id]) =~= set![id]);
                    assert(normalized@.to_set() =~= n0 + strip_special(set![id]));
                }
            },
        }
    }

    /// Construct a normalized union from a sequence of type identities.
    ///
    /// Nested unions are flattened, duplicates and `never` are removed, and
    /// members are sorted so equivalent unions receive the same identity.
    pub fn union(&mut self, members: &[TypeId]) -> (r: TypeId)
        requires
            old(self).wf(),
            forall|i: int| 0 <= i < members@.len() ==> valid_id(old(self)@, #[trigger] members@[i]),
            union_fits(old(self)@, members@),
        ensures
            final(self).wf(),
            final(self)@ == union_view(old(self)@, members@),
            r == union_id(old(self)@, members@),
            valid_id(final(self)@, r),
    {
        broadcast use group_type_id;

        let ghost v = self@;
        let ghost ms = members@;
        let mut normalized: Vec<TypeId> = Vec::new();
        let mut includes_any = false;
        let mut includes_unknown = false;
        let mut i: usize = 0;
        assert(normalized@.to_set() =~= Set::<TypeId>::empty());
        assert(strip_special(leaves_of(v, ms.take(0), v.len() as int)) =~= Set::<TypeId>::empty());
        while i < members.len()
            invariant
                self@ == v,
                store_wf(v),
                members@ == ms,
                forall|k: int| 0 <= k < ms.len() ==> valid_id(v, #[trigger] ms[k]),
                i <= ms.len(),
                strictly_increasing(normalized@),
                forall|y: TypeId| normalized@.to_set().contains(y) ==> valid_id(v, y),
                normalized@.to_set() == strip_special(leaves_of(v, ms.take(i as int), v.len() as int)),
                includes_any == leaves_of(v, ms.take(i as int), v.len() as int).contains(any_id()),
                includes_unknown == leaves_of(v, ms.take(i as int), v.len() as int).contains(
                    unknown_id(),
                ),
            decreases ms.len() - i,
        {
            let member = members[i];
            assert(valid_id(v, ms[i as int]));
            self.collect_leaves(member, &mut normalized, &mut includes_any, &mut includes_unknown);
            proof {
                let prev = leaves_of(v, ms.take(i as int), v.len() as int);
                assert(ms.take(i as int + 1).drop_last() =~= ms.take(i as int));
                assert(ms.take(i as int + 1).last() == member);
                assert(leaves_of(v, ms.take(i as int + 1), v.len() as int) == prev + member_leaves(
                    v,
                    member,
                ));
                lemma_strip_union(prev, member_leaves(v, member));
            }
            i = i + 1;
        }
        assert(ms.take(ms.len() as int) =~= ms);
        proof {
            let u = union_leaves(v, ms);
            assert(normalized@.to_set() == u);
            lemma_sorted_unique(sorted_members(u), normalized@);
        }
        if includes_any {
            return TypeId(0);
        }
        if includes_unknown {
            return TypeId(1);
        }
        if normalized.len() == 0 {
            return TypeId(2);
        }
        if normalized.len() == 1 {
            return normalized[0];
        }
        proof {
            assert forall|k: int| 0 <= k < normalized@.len() implies valid_id(v, #[trigger] normalized@[k]) by {
                assert(normalized@.to_set().contains(normalized@[k]));
            }
        }
        self.intern(TypeKind::Union(normalized))
    }
}


/// The primitive counterpart of a literal type, or the type itself.
pub open spec fn widened(v: Seq<KindView>, id: TypeId) -> TypeId {
    if valid_id(v, id) {
        match v[id.idx() as int] {
            KindView::BooleanLiteral(_) => TypeId::from_index(6),
            KindView::NumberLiteral(_) => TypeId::from_index(7),
            KindView::BigIntLiteral(_) => TypeId::from_index(8),
            KindView::StringLiteral(_) => TypeId::from_index(9),
            _ => id,
        }
    } else {
        id
    }
}

/// The mathematical value of a [`DisplayPiece`].
pub enum PieceView {
    Text(Seq<char>),
    Number(u64),
}

/// One piece of a rendered type: literal text, or a numeric literal whose
/// decimal form is left to the caller's number formatting.
#[derive(Clone, Debug, PartialEq, Eq)]
pub enum DisplayPiece {
    Text(String),
    Number(NumberLiteral),
}

impl View for DisplayPiece {
    type V = PieceView;

    open spec fn view(&self) -> PieceView {
        match self {
            DisplayPiece::Text(s) => PieceView::Text(s@),
            DisplayPiece::Number(n) => PieceView::Number(n.spec_bits()),
        }
    }
}

/// The views of a list of pieces.
pub open spec fn pieces_view(pieces: Seq<DisplayPiece>) -> Seq<PieceView> {
    pieces.map_values(|p: DisplayPiece| p@)
}

/// How a kind renders on its own.
pub open spec fn kind_pieces(k: KindView) -> Seq<PieceView> {
    match k {
        KindView::Any => seq![PieceView::Text("any"@)],
        KindView::Unknown => seq![PieceView::Text("unknown"@)],
        KindView::Never => seq![PieceView::Text("never"@)],
        KindView::Void => seq![PieceView::Text("void"@)],
        KindView::Undefined => seq![PieceView::Text("undefined"@)],
        KindView::Null => seq![PieceView::Text("null"@)],
        KindView::Boolean => seq![PieceView::Text("boolean"@)],
        KindView::Number => seq![PieceView::Text("number"@)],
        KindView::BigInt => seq![PieceView::Text("bigint"@)],
        KindView::String => seq![PieceView::Text("string"@)],
        KindView::BooleanLiteral(b) => seq![
            PieceView::Text(
                if b {
                    "true"@
                } else {
                    "false"@
                },
            ),
        ],
        KindView::NumberLiteral(bits) => seq![PieceView::Number(bits)],
        KindView::BigIntLiteral(s) => seq![PieceView::Text(s.push('n'))],
        KindView::StringLiteral(s) => seq![PieceView::Text(seq!['"'] + s + seq!['"'])],
        KindView::Union(ms) => seq![
            PieceView::Text("union("@ + decimal(ms.len()) + " members)"@),
        ],
        KindView::Array(_) => seq![PieceView::Text("array"@)],
        KindView::Object(ps) => seq![
            PieceView::Text("object("@ + decimal(ps.len()) + " properties)"@),
        ],
    }
}

/// Whether the type at `id` is `undefined` or a union with `undefined` among its members.
pub open spec fn includes_undefined(v: Seq<KindView>, id: TypeId) -> bool {
    id == TypeId::from_index(4) || (valid_id(v, id) && v[id.idx() as int] is Union && v[id.idx() as int]->Union_0.contains(TypeId::from_index(4)))
}

/// How the type at `id` renders: unions list their members separated by
/// `" | "`, other kinds render on their own, and an identity outside the
/// store renders as `<invalid type>`.
pub open spec fn display_pieces(v: Seq<KindView>, id: TypeId) -> Seq<PieceView>
    decreases id.idx() as int, 1int, 0int,
{
    if !valid_id(v, id) {
        seq![PieceView::Text("<invalid type>"@)]
    } else if v[id.idx() as int] is Union {
        members_pieces(v, v[id.idx() as int]->Union_0, id.idx() as int)
    } else if v[id.idx() as int] is Array {
        let e = v[id.idx() as int]->Array_0;
        if e.idx() < id.idx() {
            let inner = display_pieces(v, e);
            (if valid_id(v, e) && v[e.idx() as int] is Union {
                seq![PieceView::Text("("@)] + inner + seq![PieceView::Text(")"@)]
            } else {
                inner
            }) + seq![PieceView::Text("[]"@)]
        } else {
            seq![PieceView::Text("<invalid type>"@)]
        }
    } else if v[id.idx() as int] is Object {
        if v[id.idx() as int]->Object_0.len() == 0 {
            seq![PieceView::Text("{}"@)]
        } else {
            seq![PieceView::Text("{ "@)] + properties_pieces(
                v,
                v[id.idx() as int]->Object_0,
                id.idx() as int,
            ) + seq![PieceView::Text("}"@)]
        }
    } else {
        kind_pieces(v[id.idx() as int])
    }
}

/// How the properties of an object type below slot `bound` render: each as
/// `name: type; `, an optional one as `name?: type | undefined; ` unless its
/// type already includes `undefined`.
pub open spec fn properties_pieces(v: Seq<KindView>, ps: Seq<PropertyView>, bound: int) -> Seq<
    PieceView,
>
    decreases bound, 0int, ps.len() as int,
{
    if ps.len() == 0 {
        Seq::empty()
    } else {
        let p = ps.last();
        let head = PieceView::Text(
            p.name + (if p.optional {
                seq!['?']
            } else {
                Seq::empty()
            }) + ": "@,
        );
        let ty = if (p.type_id.idx() as int) < bound {
            display_pieces(v, p.type_id)
        } else {
            seq![PieceView::Text("<invalid type>"@)]
        };
        let tail = if p.optional && !includes_undefined(v, p.type_id) {
            seq![PieceView::Text(" | undefined; "@)]
        } else {
            seq![PieceView::Text("; "@)]
        };
        properties_pieces(v, ps.drop_last(), bound) + seq![head] + ty + tail
    }
}

/// How the members of a union below slot `bound` render, separated by `" | "`.
pub open spec fn members_pieces(v: Seq<KindView>, ms: Seq<TypeId>, bound: int) -> Seq<PieceView>
    decreases bound, 0int, ms.len() as int,
{
    if ms.len() == 0 {
        Seq::empty()
    } else {
        let last = ms.last();
        let separator = if ms.len() > 1 {
            seq![PieceView::Text(" | "@)]
        } else {
            Seq::empty()
        };
        members_pieces(v, ms.drop_last(), bound) + separator + if (last.idx() as int) < bound {
            display_pieces(v, last)
        } else {
            seq![PieceView::Text("<invalid type>"@)]
        }
    }
}

/// A piece of literal text.
fn text_piece(s: &str) -> (p: DisplayPiece)
    ensures
        p@ == PieceView::Text(s@),
{
    DisplayPiece::Text(s.to_owned())
}

impl TypeKind {
    /// Render this kind on its own, as pieces.
    pub fn pieces(&self) -> (r: Vec<DisplayPiece>)
        ensures
            pieces_view(r@) == kind_pieces(self@),
    {
        let mut r: Vec<DisplayPiece> = Vec::new();
        r.push(self.piece());
        proof {
            assert(pieces_view(r@) =~= kind_pieces(self@));
        }
        r
    }

    /// The single piece that this kind renders as on its own.
    fn piece(&self) -> (p: DisplayPiece)
        ensures
            kind_pieces(self@) == seq![p@],
    {
        match self {
            TypeKind::Any => text_piece("any"),
            TypeKind::Unknown => text_piece("unknown"),
            TypeKind::Never => text_piece("never"),
            TypeKind::Void => text_piece("void"),
            TypeKind::Undefined => text_piece("undefined"),
            TypeKind::Null => text_piece("null"),
            TypeKind::Boolean => text_piece("boolean"),
            TypeKind::Number => text_piece("number"),
            TypeKind::BigInt => text_piece("bigint"),
            TypeKind::String => text_piece("string"),
            TypeKind::BooleanLiteral(b) => if *b {
                text_piece("true")
            } else {
                text_piece("false")
            },
            TypeKind::NumberLiteral(n) => DisplayPiece::Number(*n),
            TypeKind::BigIntLiteral(value) => {
                let mut s = value.clone();
                push_char(&mut s, 'n');
                DisplayPiece::Text(s)
            },
            TypeKind::StringLiteral(value) => {
                let mut s = String::new();
                push_char(&mut s, '"');
                crate::text::push_str(&mut s, value.as_str());
                push_char(&mut s, '"');
                proof {
                    assert(s@ =~= seq!['"'] + value@ + seq!['"']);
                }
                DisplayPiece::Text(s)
            },
            TypeKind::Union(members) => {
                let mut s = "union(".to_owned();
                push_decimal(&mut s, members.len() as u64);
                crate::text::push_str(&mut s, " members)");
                DisplayPiece::Text(s)
            },
            TypeKind::Array(_) => text_piece("array"),
            TypeKind::Object(properties) => {
                let mut s = "object(".to_owned();
                push_decimal(&mut s, properties.len() as u64);
                crate::text::push_str(&mut s, " properties)");
                DisplayPiece::Text(s)
            },
        }
    }
}

/// Display adapter for an interned type.
pub struct TypeDisplay<'a> {
    store: &'a TypeStore,
    id: TypeId,
}

impl<'a> TypeDisplay<'a> {
    /// The contents of the store this adapter renders from.
    pub closed spec fn store_view(&self) -> Seq<KindView> {
        self.store@
    }

    /// The identity this adapter renders.
    pub closed spec fn target(&self) -> TypeId {
        self.id
    }

    /// Render the type as pieces of text and numeric literals.
    pub fn pieces(&self) -> (r: Vec<DisplayPiece>)
        requires
            store_wf(self.store_view()),
        ensures
            pieces_view(r@) == display_pieces(self.store_view(), self.target()),
    {
        let mut out: Vec<DisplayPiece> = Vec::new();
        self.store.display_into(self.id, &mut out);
        assert(pieces_view(out@) =~= display_pieces(self.store_view(), self.target()));
        out
    }
}

impl TypeStore {
    /// Format a type identity, resolving compound members through this store.
    pub fn display(&self, id: TypeId) -> (r: TypeDisplay<'_>)
        ensures
            r.store_view() == self@,
            r.target() == id,
    {
        TypeDisplay { store: self, id }
    }

    /// Append the rendering of `id` to `out`.
    fn display_into(&self, id: TypeId, out: &mut Vec<DisplayPiece>)
        requires
            self.wf(),
        ensures
            pieces_view(final(out)@) == pieces_view(old(out)@) + display_pieces(self@, id),
        decreases id.idx(),
    {
        broadcast use group_type_id;

        let ghost v = self@;
        let ghost start = pieces_view(out@);
        match self.kind(id) {
            None => {
                out.push(text_piece("<invalid type>"));
                assert(pieces_view(out@) =~= start + display_pieces(v, id));
            },
            Some(TypeKind::Union(members)) => {
                let ghost ms = members@;
                let ghost j = id.idx() as int;
                assert(v[j] == KindView::Union(ms));
                assert forall|k: int| 0 <= k < ms.len() implies (#[trigger] ms[k]).idx() < j by {
                    assert(v[j] matches KindView::Union(ns) ==> forall|m: int|
                        0 <= m < ns.len() ==> (#[trigger] ns[m]).idx() < j);
                    assert(v[j]->Union_0 == ms);
                }
                let mut i: usize = 0;
                assert(start + members_pieces(v, ms.take(0), j) =~= start);
                while i < members.len()
                    invariant
                        self@ == v,
                        store_wf(v),
                        members@ == ms,
                        forall|k: int| 0 <= k < ms.len() ==> (#[trigger] ms[k]).idx() < j,
                        j == id.idx(),
                        i <= ms.len(),
                        pieces_view(out@) == start + members_pieces(v, ms.take(i as int), j),
                    decreases ms.len() - i,
                {
                    let ghost before = pieces_view(out@);
                    if i > 0 {
                        out.push(text_piece(" | "));
                    }
                    let ghost with_separator = pieces_view(out@);
                    let member = members[i];
                    assert(ms[i as int].idx() < j);
                    self.display_into(member, out);
                    proof {
                        let t = ms.take(i as int + 1);
                        assert(t.drop_last() =~= ms.take(i as int));
                        assert(t.last() == member);
                        if i > 0 {
                            assert(with_separator =~= before + seq![PieceView::Text(" | "@)]);
                        } else {
                            assert(with_separator =~= before);
                        }
                        assert(pieces_view(out@) =~= start + members_pieces(v, t, j));
                    }
                    i = i + 1;
                }
                assert(ms.take(ms.len() as int) =~= ms);
            },
            Some(TypeKind::Array(element)) => {
                let e = *element;
                let ghost j = id.idx() as int;
                assert(v[j] == KindView::Array(e));
                assert(parts_below(v[j], j));
                let is_union = match self.kind(e) {
                    Some(TypeKind::Union(_)) => true,
                    _ => false,
                };
                if is_union {
                    out.push(text_piece("("));
                }
                let ghost opened = pieces_view(out@);
                self.display_into(e, out);
                let ghost after_inner = pieces_view(out@);
                if is_union {
                    out.push(text_piece(")"));
                }
                let ghost closed = pieces_view(out@);
                out.push(text_piece("[]"));
                proof {
                    let inner = display_pieces(v, e);
                    assert(after_inner == opened + inner);
                    assert(pieces_view(out@) =~= closed + seq![PieceView::Text("[]"@)]);
                    if is_union {
                        assert(opened =~= start + seq![PieceView::Text("("@)]);
                        assert(closed =~= after_inner + seq![PieceView::Text(")"@)]);
                        assert(pieces_view(out@) =~= start + (seq![PieceView::Text("("@)] + inner
                            + seq![PieceView::Text(")"@)]) + seq![PieceView::Text("[]"@)]);
                    } else {
                        assert(opened == start);
                        assert(closed == after_inner);
                        assert(pieces_view(out@) =~= start + inner + seq![PieceView::Text("[]"@)]);
                    }
                }
            },
            Some(TypeKind::Object(properties)) => {
                let ghost ps = properties_view(properties@);
                let ghost j = id.idx() as int;
                assert(v[j] == KindView::Object(ps));
                assert(parts_below(v[j], j));
                assert(parts_below(KindView::Object(ps), j));
                if properties.len() == 0 {
                    out.push(text_piece("{}"));
                    assert(pieces_view(out@) =~= start + display_pieces(v, id));
                    return;
                }
                assert forall|k: int| 0 <= k < ps.len() implies (#[trigger] ps[k]).type_id.idx() < j by {
                    let kv = KindView::Object(ps);
                    assert(parts_below(kv, j));
                    assert(kv->Object_0 == ps);
                    assert(kv->Object_0[k].type_id.idx() < j);
                }
                out.push(text_piece("{ "));
                let ghost opened = pieces_view(out@);
                assert(opened + properties_pieces(v, ps.take(0), j) =~= opened);
                let mut i: usize = 0;
                while i < properties.len()
                    invariant
                        self@ == v,
                        store_wf(v),
                        properties_view(properties@) == ps,
                        forall|k: int| 0 <= k < ps.len() ==> (#[trigger] ps[k]).type_id.idx() < j,
                        j == id.idx(),
                        i <= ps.len(),
                        pieces_view(out@) == opened + properties_pieces(v, ps.take(i as int), j),
                    decreases ps.len() - i,
                {
                    let ghost before = pieces_view(out@);
                    let p = &properties[i];
                    assert(ps[i as int] == p@);
                    let mut head = p.name.clone();
                    let ghost name = head@;
                    if p.optional {
                        push_char(&mut head, '?');
                    }
                    assert(name == p@.name);
                    crate::text::push_str(&mut head, ": ");
                    out.push(DisplayPiece::Text(head));
                    let ghost with_head = pieces_view(out@);
                    assert(p.type_id.idx() < j);
                    self.display_into(p.type_id, out);
                    let ghost with_type = pieces_view(out@);
                    let widen = p.optional && !self.includes_undefined(p.type_id);
                    if widen {
                        out.push(text_piece(" | undefined; "));
                    } else {
                        out.push(text_piece("; "));
                    }
                    proof {
                        let tail = if widen {
                            seq![PieceView::Text(" | undefined; "@)]
                        } else {
                            seq![PieceView::Text("; "@)]
                        };
                        assert(pieces_view(out@) =~= with_type + tail);
                        let t = ps.take(i as int + 1);
                        assert(t.drop_last() =~= ps.take(i as int));
                        assert(t.last() == p@);
                        let h = PieceView::Text(
                            p@.name + (if p@.optional {
                                seq!['?']
                            } else {
                                Seq::empty()
                            }) + ": "@,
                        );
                        assert(head@ =~= p@.name + (if p@.optional {
                            seq!['?']
                        } else {
                            Seq::<char>::empty()
                        }) + ": "@);
                        assert(with_type == with_head + display_pieces(v, p@.type_id));
                        assert(with_head =~= before + seq![h]);
                        assert(properties_pieces(v, t, j) == properties_pieces(v, ps.take(i as int), j)
                            + seq![h] + display_pieces(v, p@.type_id) + tail);
                        assert(pieces_view(out@) =~= opened + properties_pieces(v, t, j));
                    }
                    i = i + 1;
                }
                assert(ps.take(ps.len() as int) =~= ps);
                let ghost body = pieces_view(out@);
                out.push(text_piece("}"));
                proof {
                    assert(opened =~= start + seq![PieceView::Text("{ "@)]);
                    assert(body == opened + properties_pieces(v, ps, j));
                    assert(pieces_view(out@) =~= body + seq![PieceView::Text("}"@)]);
                    assert(v[j]->Object_0 == ps);
                    assert(display_pieces(v, id) == seq![PieceView::Text("{ "@)] + properties_pieces(
                        v,
                        ps,
                        j,
                    ) + seq![PieceView::Text("}"@)]);
                    assert(pieces_view(out@) =~= start + display_pieces(v, id));
                }
            },
            Some(kind) => {
                out.push(kind.piece());
                assert(pieces_view(out@) =~= start + display_pieces(v, id));
            },
        }
    }

    /// Whether the type at `id` is `undefined` or a union that has it as a member.
    pub fn includes_undefined(&self, id: TypeId) -> (r: bool)
        ensures
            r == includes_undefined(self@, id),
    {
        broadcast use group_type_id;

        if id.0 == 4 {
            return true;
        }
        match self.kind(id) {
            Some(TypeKind::Union(members)) => {
                assert(self@[id.idx() as int] == KindView::Union(members@));
                let mut i: usize = 0;
                while i < members.len()
                    invariant
                        valid_id(self@, id),
                        self@[id.idx() as int] == KindView::Union(members@),
                        i <= members@.len(),
                        forall|k: int| 0 <= k < i ==> members@[k] != TypeId::from_index(4),
                    decreases members@.len() - i,
                {
                    if members[i].0 == 4 {
                        assert(members@[i as int] == TypeId::from_index(4));
                        assert(members@.contains(TypeId::from_index(4)));
                        return true;
                    }
                    i = i + 1;
                }
                assert(!members@.contains(TypeId::from_index(4)));
                false
            },
            _ => false,
        }
    }

    /// The array type whose elements have type `element`.
    pub fn array(&mut self, element: TypeId) -> (r: TypeId)
        requires
            old(self).wf(),
            valid_id(old(self)@, element),
            intern_fits(old(self)@, KindView::Array(element)),
        ensures
            final(self).wf(),
            final(self)@ == interned_view(old(self)@, KindView::Array(element)),
            r == interned_id(old(self)@, KindView::Array(element)),
            valid_id(final(self)@, r),
    {
        self.intern(TypeKind::Array(element))
    }

    /// The object type with the given properties, in the given order.
    pub fn object(&mut self, properties: Vec<ObjectTypeProperty>) -> (r: TypeId)
        requires
            old(self).wf(),
            forall|i: int| 0 <= i < properties@.len() ==> valid_id(old(self)@, #[trigger] properties@[i].type_id),
            intern_fits(old(self)@, KindView::Object(properties_view(properties@))),
        ensures
            final(self).wf(),
            final(self)@ == interned_view(old(self)@, KindView::Object(properties_view(properties@))),
            r == interned_id(old(self)@, KindView::Object(properties_view(properties@))),
            valid_id(final(self)@, r),
    {
        let ghost ps = properties_view(properties@);
        assert forall|j: int| 0 <= j < ps.len() implies (#[trigger] ps[j]).type_id.idx() < old(self)@.len() by {
            assert(ps[j] == properties@[j]@);
        }
        self.intern(TypeKind::Object(properties))
    }

    /// Widen a fresh literal type to its primitive counterpart.
    pub fn widen_literal(&self, id: TypeId) -> (r: TypeId)
        ensures
            r == widened(self@, id),
    {
        match self.kind(id) {
            Some(TypeKind::BooleanLiteral(_)) => TypeId(6),
            Some(TypeKind::NumberLiteral(_)) => TypeId(7),
            Some(TypeKind::BigIntLiteral(_)) => TypeId(8),
            Some(TypeKind::StringLiteral(_)) => TypeId(9),
            _ => id,
        }
    }
}


/// Interning a kind a second time returns the same identity and leaves the
/// store unchanged.
pub proof fn lemma_intern_idempotent(v: Seq<KindView>, k: KindView)
    requires
        store_wf(v),
        intern_fits(v, k),
    ensures
        interned_view(interned_view(v, k), k) == interned_view(v, k),
        interned_id(interned_view(v, k), k) == interned_id(v, k),
{
    let w = interned_view(v, k);
    if !v.contains(k) {
        assert(w[v.len() as int] == k);
        assert(w.contains(k));
        let j = w.index_of(k);
        assert(w[j] == k);
        if j < v.len() {
            assert(v[j] == w[j]);
            assert(v.contains(k));
        }
    }
}

/// The laws of interning: the slot of the identity that interning `k`
/// gives holds `k`; in any later state of the store, interning `k` again
/// gives that identity and adds nothing; and interning any kind `k2` there
/// gives that identity exactly when `k2` is `k`.
pub proof fn lemma_intern_laws(v: Seq<KindView>, w: Seq<KindView>, k: KindView, k2: KindView)
    requires
        store_wf(v),
        kind_fits(v, k),
        intern_fits(v, k),
        interned_view(v, k).is_prefix_of(w),
        store_wf(w),
        intern_fits(w, k2),
    ensures
        valid_id(interned_view(v, k), interned_id(v, k)),
        interned_view(v, k)[interned_id(v, k).idx() as int] == k,
        interned_id(w, k) == interned_id(v, k),
        interned_view(w, k) == w,
        (interned_id(w, k2) == interned_id(v, k)) <==> k2 == k,
{
    broadcast use group_type_id;

    let v1 = interned_view(v, k);
    let id = interned_id(v, k);
    if v.contains(k) {
        let j = v.index_of(k);
        assert(v[j] == k);
    } else {
        assert(v1[v.len() as int] == k);
    }
    assert(id.idx() < v1.len() && v1[id.idx() as int] == k);
    let j = id.idx() as int;
    assert(w[j] == v1[j]);
    assert(w.contains(k));
    let wj = w.index_of(k);
    assert(w[wj] == k);
    assert(wj == j);
    if w.contains(k2) {
        let j2 = w.index_of(k2);
        assert(w[j2] == k2);
    }
}

/// The union of the same members, built again in any later state of the
/// store, has the same identity and adds nothing to the store.
pub proof fn lemma_union_stable(v: Seq<KindView>, w: Seq<KindView>, ms: Seq<TypeId>)
    requires
        store_wf(v),
        forall|i: int| 0 <= i < ms.len() ==> valid_id(v, #[trigger] ms[i]),
        union_fits(v, ms),
        union_view(v, ms).is_prefix_of(w),
        store_wf(w),
    ensures
        union_id(w, ms) == union_id(v, ms),
        union_view(w, ms) == w,
        union_fits(w, ms),
{
    broadcast use group_type_id;

    let v1 = union_view(v, ms);
    assert(v.is_prefix_of(w)) by {
        if v1 != v {
            assert forall|i: int| 0 <= i < v.len() implies w[i] == v[i] by {
                assert(v1[i] == v[i]);
            }
        }
    }
    assert forall|i: int| 0 <= i < ms.len() implies (#[trigger] ms[i]).idx() < v.len() by {
        assert(valid_id(v, ms[i]));
    }
    lemma_leaves_of_extend(v, w, ms, v.len() as int);
    lemma_leaves_of_bound(w, ms, v.len() as int, w.len() as int);
    assert(leaves_of(w, ms, w.len() as int) == leaves_of(v, ms, v.len() as int));
    assert(union_leaves(w, ms) == union_leaves(v, ms));
    assert(union_plan(w, ms) == union_plan(v, ms));
    match union_plan(v, ms) {
        Ok(_) => {},
        Err(k) => {
            assert(union_view(v, ms) == interned_view(v, k));
            assert(kind_fits(v, k)) by {
                lemma_union_kind_fits(v, ms);
            }
            assert(w.contains(k)) by {
                if v.contains(k) {
                    let j = v.index_of(k);
                    assert(v[j] == k);
                    assert(w[j] == v1[j]);
                } else {
                    assert(v1[v.len() as int] == k);
                    assert(w[v.len() as int] == v1[v.len() as int]);
                }
            }
            lemma_intern_laws(v, w, k, k);
            assert(union_plan(w, ms) == Err::<TypeId, KindView>(k));
        },
    }
}

/// The laws of unions across successive calls: once the union of `xs` is
/// built, building in any later state of the store a union of the same
/// members in any order or with repeats, or with `never` added, gives the
/// same identity; that identity as the only member gives itself; and as a
/// member beside `zs` it stands for the members of `xs`.
pub proof fn lemma_union_across_calls(
    v: Seq<KindView>,
    w: Seq<KindView>,
    xs: Seq<TypeId>,
    ys: Seq<TypeId>,
    zs: Seq<TypeId>,
)
    requires
        store_wf(v),
        forall|i: int| 0 <= i < xs.len() ==> valid_id(v, #[trigger] xs[i]),
        union_fits(v, xs),
        union_view(v, xs).is_prefix_of(w),
        store_wf(w),
        forall|i: int| 0 <= i < ys.len() ==> valid_id(w, #[trigger] ys[i]),
        forall|i: int| 0 <= i < zs.len() ==> valid_id(w, #[trigger] zs[i]),
    ensures
        ys.to_set() == xs.to_set() ==> union_id(w, ys) == union_id(v, xs),
        union_id(w, xs.push(never_id())) == union_id(v, xs),
        union_id(w, seq![union_id(v, xs)]) == union_id(v, xs),
        union_id(w, seq![union_id(v, xs)] + zs) == union_id(w, xs + zs),
{
    let u = union_id(v, xs);
    lemma_union_stable(v, w, xs);
    assert forall|i: int| 0 <= i < xs.len() implies valid_id(w, #[trigger] xs[i]) by {
        assert(valid_id(v, xs[i]));
        assert(v.len() <= union_view(v, xs).len());
    }
    if ys.to_set() == xs.to_set() {
        lemma_union_ignores_order(w, xs, ys);
    }
    lemma_union_ignores_never(w, xs);
    lemma_union_flattens(w, xs, zs);
    lemma_union_flattens(w, xs, Seq::empty());
    assert(seq![u] + Seq::<TypeId>::empty() =~= seq![u]);
    assert(xs + Seq::<TypeId>::empty() =~= xs);
}

/// A union whose members are all one type, neither a union nor `any`,
/// `unknown` or `never`, is that type, and adds nothing to the store.
pub proof fn lemma_union_of_one_type(v: Seq<KindView>, ms: Seq<TypeId>, m: TypeId)
    requires
        store_wf(v),
        valid_id(v, m),
        !(v[m.idx() as int] is Union),
        m != any_id() && m != unknown_id() && m != never_id(),
        ms.len() > 0,
        forall|i: int| 0 <= i < ms.len() ==> #[trigger] ms[i] == m,
    ensures
        union_id(v, ms) == m,
        union_view(v, ms) == v,
{
    broadcast use group_type_id;

    lemma_leaves_of_one(v, ms, v.len() as int, m);
    let leaves = leaves_of(v, ms, v.len() as int);
    assert(leaves == set![m]);
    let stripped = union_leaves(v, ms);
    assert(stripped =~= set![m]);
    lemma_sorted_members(stripped, v.len());
    let q = sorted_members(stripped);
    assert(q.to_set().contains(m));
    if q.len() == 0 {
        assert(false);
    }
    if q.len() >= 2 {
        assert(q.to_set().contains(q[0]));
        assert(q.to_set().contains(q[1]));
        assert(q[0].idx() < q[1].idx());
        assert(false);
    }
    assert(q.to_set().contains(q[0]));
    assert(q[0] == m);
}

proof fn lemma_leaves_of_one(v: Seq<KindView>, ms: Seq<TypeId>, bound: int, m: TypeId)
    requires
        valid_id(v, m),
        (m.idx() as int) < bound,
        !(v[m.idx() as int] is Union),
        ms.len() > 0,
        forall|i: int| 0 <= i < ms.len() ==> #[trigger] ms[i] == m,
    ensures
        leaves_of(v, ms, bound) == set![m],
    decreases ms.len(),
{
    let d = ms.drop_last();
    assert(ms.last() == ms[ms.len() - 1]);
    assert(member_leaves(v, m) == set![m]);
    assert(leaves_of(v, ms, bound) == leaves_of(v, d, bound) + member_leaves(v, m));
    if d.len() > 0 {
        assert forall|i: int| 0 <= i < d.len() implies #[trigger] d[i] == m by {
            assert(d[i] == ms[i]);
        }
        lemma_leaves_of_one(v, d, bound, m);
        assert(set![m] + set![m] =~= set![m]);
    } else {
        assert(leaves_of(v, d, bound) == Set::<TypeId>::empty());
        assert(Set::<TypeId>::empty() + set![m] =~= set![m]);
    }
}

/// The union kind that normalizing valid members plans fits the store.
proof fn lemma_union_kind_fits(v: Seq<KindView>, ms: Seq<TypeId>)
    requires
        store_wf(v),
        forall|i: int| 0 <= i < ms.len() ==> valid_id(v, #[trigger] ms[i]),
        union_plan(v, ms) is Err,
    ensures
        kind_fits(v, union_plan(v, ms)->Err_0),
{
    assert forall|i: int| 0 <= i < ms.len() implies (#[trigger] ms[i]).idx() < v.len() by {
        assert(valid_id(v, ms[i]));
    }
    lemma_leaves_of_are_leaves(v, ms, v.len() as int);
    let stripped = union_leaves(v, ms);
    assert forall|x: TypeId| stripped.contains(x) implies x.idx() < v.len() by {
        assert(leaves_of(v, ms, v.len() as int).contains(x));
    }
    lemma_sorted_members(stripped, v.len());
    let sorted = sorted_members(stripped);
    assert forall|i: int| 0 <= i < sorted.len() implies valid_id(v, #[trigger] sorted[i]) by {
        assert(sorted.to_set().contains(sorted[i]));
    }
}

/// Structurally different kinds receive different identities, and each
/// identity's slot holds the kind it was interned for.
pub proof fn lemma_intern_distinct(v: Seq<KindView>, k1: KindView, k2: KindView)
    requires
        store_wf(v),
        kind_fits(v, k1),
        intern_fits(v, k1),
        kind_fits(interned_view(v, k1), k2),
        intern_fits(interned_view(v, k1), k2),
        k1 != k2,
    ensures
        interned_id(v, k1) != interned_id(interned_view(v, k1), k2),
        interned_view(interned_view(v, k1), k2)[interned_id(v, k1).idx() as int] == k1,
        interned_view(interned_view(v, k1), k2)[interned_id(interned_view(v, k1), k2).idx() as int]
            == k2,
{
    broadcast use group_type_id;

    let v1 = interned_view(v, k1);
    let v2 = interned_view(v1, k2);
    let id1 = interned_id(v, k1);
    let id2 = interned_id(v1, k2);
    if v.contains(k1) {
        let j = v.index_of(k1);
        assert(v[j] == k1);
    } else {
        assert(v1[v.len() as int] == k1);
    }
    assert(id1.idx() < v1.len() && v1[id1.idx() as int] == k1);
    if v1.contains(k2) {
        let j = v1.index_of(k2);
        assert(v1[j] == k2);
    } else {
        assert(v2[v1.len() as int] == k2);
    }
    assert(v2[id1.idx() as int] == v1[id1.idx() as int]);
}

/// Membership in the leaves of a member list: a leaf of some member.
pub proof fn lemma_leaves_of_members(v: Seq<KindView>, ms: Seq<TypeId>, bound: int, x: TypeId)
    requires
        forall|i: int| 0 <= i < ms.len() ==> (#[trigger] ms[i]).idx() < bound,
    ensures
        leaves_of(v, ms, bound).contains(x) <==> exists|i: int|
            0 <= i < ms.len() && #[trigger] member_leaves(v, ms[i]).contains(x),
    decreases ms.len(),
{
    if ms.len() > 0 {
        let d = ms.drop_last();
        assert forall|i: int| 0 <= i < d.len() implies (#[trigger] d[i]).idx() < bound by {
            assert(d[i] == ms[i]);
        }
        lemma_leaves_of_members(v, d, bound, x);
        if leaves_of(v, ms, bound).contains(x) {
            if leaves_of(v, d, bound).contains(x) {
                let i = choose|i: int| 0 <= i < d.len() && #[trigger] member_leaves(v, d[i]).contains(x);
                assert(ms[i] == d[i]);
            } else {
                assert(member_leaves(v, ms[ms.len() - 1]).contains(x));
            }
        }
        if exists|i: int| 0 <= i < ms.len() && #[trigger] member_leaves(v, ms[i]).contains(x) {
            let i = choose|i: int| 0 <= i < ms.len() && #[trigger] member_leaves(v, ms[i]).contains(x);
            if i < ms.len() - 1 {
                assert(d[i] == ms[i]);
            }
        }
    }
}

/// The leaves of a member list depend only on which members it holds.
proof fn lemma_leaves_of_set(v: Seq<KindView>, ms1: Seq<TypeId>, ms2: Seq<TypeId>, bound: int)
    requires
        ms1.to_set() == ms2.to_set(),
        forall|i: int| 0 <= i < ms1.len() ==> (#[trigger] ms1[i]).idx() < bound,
        forall|i: int| 0 <= i < ms2.len() ==> (#[trigger] ms2[i]).idx() < bound,
    ensures
        leaves_of(v, ms1, bound) == leaves_of(v, ms2, bound),
{
    assert forall|x: TypeId| leaves_of(v, ms1, bound).contains(x) <==> leaves_of(
        v,
        ms2,
        bound,
    ).contains(x) by {
        lemma_leaves_of_members(v, ms1, bound, x);
        lemma_leaves_of_members(v, ms2, bound, x);
        if exists|i: int| 0 <= i < ms1.len() && #[trigger] member_leaves(v, ms1[i]).contains(x) {
            let i = choose|i: int| 0 <= i < ms1.len() && #[trigger] member_leaves(v, ms1[i]).contains(x);
            assert(ms1.to_set().contains(ms1[i]));
            assert(ms2.to_set().contains(ms1[i]));
            let j = choose|j: int| 0 <= j < ms2.len() && ms2[j] == ms1[i];
            assert(member_leaves(v, ms2[j]).contains(x));
        }
        if exists|i: int| 0 <= i < ms2.len() && #[trigger] member_leaves(v, ms2[i]).contains(x) {
            let i = choose|i: int| 0 <= i < ms2.len() && #[trigger] member_leaves(v, ms2[i]).contains(x);
            assert(ms2.to_set().contains(ms2[i]));
            assert(ms1.to_set().contains(ms2[i]));
            let j = choose|j: int| 0 <= j < ms1.len() && ms1[j] == ms2[i];
            assert(member_leaves(v, ms1[j]).contains(x));
        }
    }
    assert(leaves_of(v, ms1, bound) =~= leaves_of(v, ms2, bound));
}

/// A union depends only on which members are given: their order and
/// repetitions do not matter.
pub proof fn lemma_union_ignores_order(v: Seq<KindView>, ms1: Seq<TypeId>, ms2: Seq<TypeId>)
    requires
        store_wf(v),
        forall|i: int| 0 <= i < ms1.len() ==> valid_id(v, #[trigger] ms1[i]),
        forall|i: int| 0 <= i < ms2.len() ==> valid_id(v, #[trigger] ms2[i]),
        ms1.to_set() == ms2.to_set(),
    ensures
        union_view(v, ms1) == union_view(v, ms2),
        union_id(v, ms1) == union_id(v, ms2),
{
    lemma_leaves_of_set(v, ms1, ms2, v.len() as int);
}

/// Adding `never` to the members of a union does not change it.
pub proof fn lemma_union_ignores_never(v: Seq<KindView>, ms: Seq<TypeId>)
    requires
        store_wf(v),
        forall|i: int| 0 <= i < ms.len() ==> valid_id(v, #[trigger] ms[i]),
    ensures
        union_view(v, ms.push(never_id())) == union_view(v, ms),
        union_id(v, ms.push(never_id())) == union_id(v, ms),
{
    broadcast use group_type_id;

    let n = ms.push(never_id());
    assert(n.drop_last() =~= ms);
    assert(v[2] == primitive_kinds()[2]);
    assert(member_leaves(v, never_id()) == set![never_id()]);
    let l1 = leaves_of(v, n, v.len() as int);
    let l0 = leaves_of(v, ms, v.len() as int);
    assert(l1 == l0 + set![never_id()]);
    assert(strip_special(l1) =~= strip_special(l0));
    assert(l1.contains(any_id()) == l0.contains(any_id()));
    assert(l1.contains(unknown_id()) == l0.contains(unknown_id()));
}


/// The identities of `s` below index `n`, in increasing order.
spec fn sorted_below(s: Set<TypeId>, n: nat) -> Seq<TypeId>
    decreases n,
{
    if n == 0 {
        Seq::empty()
    } else {
        let prev = sorted_below(s, (n - 1) as nat);
        let x = TypeId::from_index((n - 1) as u32);
        if s.contains(x) {
            prev.push(x)
        } else {
            prev
        }
    }
}

proof fn lemma_sorted_below(s: Set<TypeId>, n: nat)
    requires
        n <= 0x1_0000_0000,
    ensures
        strictly_increasing(sorted_below(s, n)),
        forall|i: int| 0 <= i < sorted_below(s, n).len() ==> (#[trigger] sorted_below(s, n)[i]).idx() < n,
        forall|x: TypeId| sorted_below(s, n).to_set().contains(x) <==> (s.contains(x) && x.idx() < n),
    decreases n,
{
    broadcast use group_type_id;

    if n > 0 {
        lemma_sorted_below(s, (n - 1) as nat);
        let prev = sorted_below(s, (n - 1) as nat);
        let x = TypeId::from_index((n - 1) as u32);
        let q = sorted_below(s, n);
        assert forall|y: TypeId| q.to_set().contains(y) <==> (s.contains(y) && y.idx() < n) by {
            if q.to_set().contains(y) {
                let k = choose|k: int| 0 <= k < q.len() && q[k] == y;
                if k < prev.len() {
                    assert(prev[k] == y);
                    assert(prev.to_set().contains(y));
                }
            }
            if s.contains(y) && y.idx() < n {
                if y.idx() == n - 1 {
                    assert(q[q.len() - 1] == y);
                } else {
                    assert(prev.to_set().contains(y));
                    let k = choose|k: int| 0 <= k < prev.len() && prev[k] == y;
                    assert(q[k] == y);
                }
            }
        }
    }
}

/// Every finite set of identities below `n` has its sorted enumeration.
pub proof fn lemma_sorted_members(s: Set<TypeId>, n: nat)
    requires
        n <= 0x1_0000_0000,
        forall|x: TypeId| s.contains(x) ==> x.idx() < n,
    ensures
        strictly_increasing(sorted_members(s)),
        sorted_members(s).to_set() == s,
{
    lemma_sorted_below(s, n);
    let q = sorted_below(s, n);
    assert(q.to_set() =~= s);
    assert(strictly_increasing(q) && q.to_set() == s);
}

/// The leaves of a member list are the leaves of its members.
proof fn lemma_leaves_concat(v: Seq<KindView>, a: Seq<TypeId>, b: Seq<TypeId>, bound: int)
    requires
        forall|i: int| 0 <= i < a.len() ==> (#[trigger] a[i]).idx() < bound,
        forall|i: int| 0 <= i < b.len() ==> (#[trigger] b[i]).idx() < bound,
    ensures
        leaves_of(v, a + b, bound) == leaves_of(v, a, bound) + leaves_of(v, b, bound),
{
    let c = a + b;
    assert forall|i: int| 0 <= i < c.len() implies (#[trigger] c[i]).idx() < bound by {
        if i < a.len() {
            assert(c[i] == a[i]);
        } else {
            assert(c[i] == b[i - a.len()]);
        }
    }
    assert forall|x: TypeId| leaves_of(v, c, bound).contains(x) <==> (leaves_of(v, a, bound)
        + leaves_of(v, b, bound)).contains(x) by {
        lemma_leaves_of_members(v, c, bound, x);
        lemma_leaves_of_members(v, a, bound, x);
        lemma_leaves_of_members(v, b, bound, x);
        if exists|i: int| 0 <= i < c.len() && #[trigger] member_leaves(v, c[i]).contains(x) {
            let i = choose|i: int| 0 <= i < c.len() && #[trigger] member_leaves(v, c[i]).contains(x);
            if i < a.len() {
                assert(c[i] == a[i]);
            } else {
                assert(c[i] == b[i - a.len()]);
            }
        }
        if exists|i: int| 0 <= i < a.len() && #[trigger] member_leaves(v, a[i]).contains(x) {
            let i = choose|i: int| 0 <= i < a.len() && #[trigger] member_leaves(v, a[i]).contains(x);
            assert(c[i] == a[i]);
        }
        if exists|i: int| 0 <= i < b.len() && #[trigger] member_leaves(v, b[i]).contains(x) {
            let i = choose|i: int| 0 <= i < b.len() && #[trigger] member_leaves(v, b[i]).contains(x);
            assert(c[i + a.len()] == b[i]);
        }
    }
    assert(leaves_of(v, c, bound) =~= leaves_of(v, a, bound) + leaves_of(v, b, bound));
}

/// The leaves of a valid identity are valid non-union identities.
pub proof fn lemma_leaves_are_leaves(v: Seq<KindView>, id: TypeId)
    requires
        store_wf(v),
        valid_id(v, id),
    ensures
        forall|x: TypeId| #[trigger] member_leaves(v, id).contains(x) ==> valid_id(v, x) && !(
        v[x.idx() as int] is Union),
    decreases id.idx() as int, 1int, 0int,
{
    if v[id.idx() as int] is Union {
        let j = id.idx() as int;
        let ms = v[j]->Union_0;
        assert(v[j] matches KindView::Union(ns) ==> forall|k: int|
            0 <= k < ns.len() ==> (#[trigger] ns[k]).idx() < j);
        assert(forall|k: int| 0 <= k < ms.len() ==> (#[trigger] ms[k]).idx() < j);
        lemma_leaves_of_are_leaves(v, ms, j);
        assert(member_leaves(v, id) == leaves_of(v, ms, j));
    } else {
        assert(member_leaves(v, id) == set![id]);
    }
}

pub proof fn lemma_leaves_of_are_leaves(v: Seq<KindView>, ms: Seq<TypeId>, bound: int)
    requires
        store_wf(v),
        bound <= v.len(),
        forall|i: int| 0 <= i < ms.len() ==> (#[trigger] ms[i]).idx() < bound,
    ensures
        forall|x: TypeId| #[trigger] leaves_of(v, ms, bound).contains(x) ==> valid_id(v, x) && !(
        v[x.idx() as int] is Union),
    decreases bound, 0int, ms.len() as int,
{
    if ms.len() > 0 {
        let d = ms.drop_last();
        assert forall|i: int| 0 <= i < d.len() implies (#[trigger] d[i]).idx() < bound by {
            assert(d[i] == ms[i]);
        }
        lemma_leaves_of_are_leaves(v, d, bound);
        assert(ms.last() == ms[ms.len() - 1]);
        lemma_leaves_are_leaves(v, ms.last());
        assert(leaves_of(v, ms, bound) == leaves_of(v, d, bound) + member_leaves(v, ms.last()));
    }
}

/// The leaves of an identity do not change as the store grows.
pub proof fn lemma_leaves_extend(v: Seq<KindView>, w: Seq<KindView>, id: TypeId)
    requires
        store_wf(w),
        v.is_prefix_of(w),
        valid_id(v, id),
    ensures
        member_leaves(w, id) == member_leaves(v, id),
    decreases id.idx() as int, 1int, 0int,
{
    let j = id.idx() as int;
    assert(v[j] == w[j]);
    if v[j] is Union {
        let ms = v[j]->Union_0;
        assert(w[j] matches KindView::Union(ns) ==> forall|k: int|
            0 <= k < ns.len() ==> (#[trigger] ns[k]).idx() < j);
        lemma_leaves_of_extend(v, w, ms, j);
    }
}

proof fn lemma_leaves_of_extend(v: Seq<KindView>, w: Seq<KindView>, ms: Seq<TypeId>, bound: int)
    requires
        store_wf(w),
        v.is_prefix_of(w),
        bound <= v.len(),
        forall|i: int| 0 <= i < ms.len() ==> (#[trigger] ms[i]).idx() < bound,
    ensures
        leaves_of(w, ms, bound) == leaves_of(v, ms, bound),
    decreases bound, 0int, ms.len() as int,
{
    if ms.len() > 0 {
        let d = ms.drop_last();
        assert forall|i: int| 0 <= i < d.len() implies (#[trigger] d[i]).idx() < bound by {
            assert(d[i] == ms[i]);
        }
        lemma_leaves_of_extend(v, w, d, bound);
        assert(ms.last() == ms[ms.len() - 1]);
        lemma_leaves_extend(v, w, ms.last());
    }
}

/// Interning keeps a store well-formed and only appends to it.
pub proof fn lemma_intern_wf(v: Seq<KindView>, k: KindView)
    requires
        store_wf(v),
        kind_fits(v, k),
        intern_fits(v, k),
    ensures
        store_wf(interned_view(v, k)),
        v.is_prefix_of(interned_view(v, k)),
        valid_id(interned_view(v, k), interned_id(v, k)),
        interned_view(v, k)[interned_id(v, k).idx() as int] == k,
{
    broadcast use group_type_id;

    let w = interned_view(v, k);
    if v.contains(k) {
        let j = v.index_of(k);
        assert(v[j] == k);
        assert(v.is_prefix_of(w));
    } else {
        assert(w[v.len() as int] == k);
        assert forall|i: int| 0 <= i < primitive_count() implies w[i] == #[trigger] primitive_kinds()[i] by {
            assert(w[i] == v[i]);
        }
        assert forall|a: int, b: int| 0 <= a < b < w.len() implies w[a] != w[b] by {
            assert(w[a] == v[a]);
            if b < v.len() {
                assert(w[b] == v[b]);
            }
        }
        assert forall|a: int| #![trigger w[a]] 0 <= a < w.len() implies (w[a] matches KindView::Union(ms) ==> forall|m: int|
            0 <= m < ms.len() ==> (#[trigger] ms[m]).idx() < a) by {
            if a < v.len() {
                assert(w[a] == v[a]);
            }
        }
        assert forall|a: int| #![trigger w[a]] 0 <= a < w.len() implies parts_below(w[a], a) by {
            if a < v.len() {
                assert(w[a] == v[a]);
            }
        }
        assert(v.is_prefix_of(w)) by {
            assert(w.subrange(0, v.len() as int) =~= v);
        }
    }
}

/// The leaves of members below both bounds do not depend on the bound.
proof fn lemma_leaves_of_bound(v: Seq<KindView>, ms: Seq<TypeId>, b1: int, b2: int)
    requires
        forall|i: int| 0 <= i < ms.len() ==> (#[trigger] ms[i]).idx() < b1,
        b1 <= b2,
    ensures
        leaves_of(v, ms, b1) == leaves_of(v, ms, b2),
    decreases ms.len(),
{
    if ms.len() > 0 {
        let d = ms.drop_last();
        assert forall|i: int| 0 <= i < d.len() implies (#[trigger] d[i]).idx() < b1 by {
            assert(d[i] == ms[i]);
        }
        lemma_leaves_of_bound(v, d, b1, b2);
        assert(ms.last() == ms[ms.len() - 1]);
    }
}

/// The union plan is decided by the leaves: whether they hold `any` or
/// `unknown`, and otherwise the remaining leaves.
proof fn lemma_plan_by_leaves(v: Seq<KindView>, ms1: Seq<TypeId>, ms2: Seq<TypeId>)
    requires
        leaves_of(v, ms1, v.len() as int).contains(any_id()) == leaves_of(v, ms2, v.len() as int).contains(any_id()),
        !leaves_of(v, ms1, v.len() as int).contains(any_id()) ==> leaves_of(
            v,
            ms1,
            v.len() as int,
        ).contains(unknown_id()) == leaves_of(v, ms2, v.len() as int).contains(unknown_id()),
        !leaves_of(v, ms1, v.len() as int).contains(any_id()) && !leaves_of(
            v,
            ms1,
            v.len() as int,
        ).contains(unknown_id()) ==> union_leaves(v, ms1) == union_leaves(v, ms2),
    ensures
        union_plan(v, ms1) == union_plan(v, ms2),
{
}

/// What the identity of a union stands for as a member of another union:
/// `any` or `unknown` when its members reach them, and otherwise exactly
/// the normalized leaves of its members.
pub proof fn lemma_union_id_leaves(v: Seq<KindView>, xs: Seq<TypeId>)
    requires
        store_wf(v),
        forall|i: int| 0 <= i < xs.len() ==> valid_id(v, #[trigger] xs[i]),
        union_fits(v, xs),
    ensures
        ({
            let v1 = union_view(v, xs);
            let u = union_id(v, xs);
            let lx = leaves_of(v, xs, v.len() as int);
            let m = member_leaves(v1, u);
            &&& store_wf(v1)
            &&& v.is_prefix_of(v1)
            &&& valid_id(v1, u)
            &&& lx.contains(any_id()) ==> m == set![any_id()]
            &&& !lx.contains(any_id()) && lx.contains(unknown_id()) ==> m == set![unknown_id()]
            &&& !lx.contains(any_id()) && !lx.contains(unknown_id()) ==> !m.contains(any_id())
                && !m.contains(unknown_id()) && strip_special(m) == union_leaves(v, xs)
        }),
{
    broadcast use group_type_id;

    let n = v.len() as int;
    let lx = leaves_of(v, xs, n);
    let stripped = union_leaves(v, xs);
    lemma_leaves_of_are_leaves(v, xs, n);
    assert forall|x: TypeId| #[trigger] stripped.contains(x) implies x.idx() < v.len() by {
        assert(lx.contains(x));
    }
    lemma_sorted_members(stripped, v.len());
    let sorted = sorted_members(stripped);
    let v1 = union_view(v, xs);
    let u = union_id(v, xs);
    match union_plan(v, xs) {
        Ok(_) => {
            assert(v1 == v);
            assert(v.is_prefix_of(v1)) by {
                assert(v1.subrange(0, v.len() as int) =~= v);
            }
            if !lx.contains(any_id()) && !lx.contains(unknown_id()) && sorted.len() == 1 {
                assert(sorted.to_set().contains(sorted[0]));
            }
        },
        Err(k) => {
            assert(k == KindView::Union(sorted));
            assert forall|i: int| 0 <= i < sorted.len() implies valid_id(v, #[trigger] sorted[i]) by {
                assert(sorted.to_set().contains(sorted[i]));
            }
            lemma_intern_wf(v, k);
        },
    }
    assert(v1[0] == KindView::Any && v1[1] == KindView::Unknown && v1[2] == KindView::Never) by {
        assert(v1[0] == primitive_kinds()[0]);
        assert(v1[1] == primitive_kinds()[1]);
        assert(v1[2] == primitive_kinds()[2]);
    }
    let m = member_leaves(v1, u);
    if lx.contains(any_id()) {
        assert(m == set![any_id()]);
    } else if lx.contains(unknown_id()) {
        assert(m == set![unknown_id()]);
    } else if sorted.len() == 0 {
        assert(u == never_id());
        assert(m == set![never_id()]);
        assert(stripped =~= Set::<TypeId>::empty()) by {
            assert forall|x: TypeId| !stripped.contains(x) by {
                if stripped.contains(x) {
                    assert(sorted.to_set().contains(x));
                }
            }
        }
        assert(strip_special(set![never_id()]) =~= Set::<TypeId>::empty());
    } else if sorted.len() == 1 {
        let s0 = sorted[0];
        assert(u == s0);
        assert(sorted.to_set().contains(s0));
        assert(lx.contains(s0));
        assert(v1[s0.idx() as int] == v[s0.idx() as int]);
        assert(m == set![s0]);
        assert(stripped =~= set![s0]) by {
            assert forall|x: TypeId| stripped.contains(x) implies x == s0 by {
                assert(sorted.to_set().contains(x));
            }
        }
        assert(strip_special(set![s0]) =~= set![s0]);
    } else {
        let j = u.idx() as int;
        assert(v1[j] == KindView::Union(sorted));
        assert(v1[j] matches KindView::Union(ns) ==> forall|k: int|
            0 <= k < ns.len() ==> (#[trigger] ns[k]).idx() < j);
        assert(forall|k: int| 0 <= k < sorted.len() ==> (#[trigger] sorted[k]).idx() < j);
        assert(m == leaves_of(v1, sorted, j));
        assert forall|x: TypeId| leaves_of(v1, sorted, j).contains(x) <==> stripped.contains(x) by {
            lemma_leaves_of_members(v1, sorted, j, x);
            if stripped.contains(x) {
                assert(sorted.to_set().contains(x));
                let k = choose|k: int| 0 <= k < sorted.len() && sorted[k] == x;
                assert(lx.contains(x));
                lemma_leaves_extend(v, v1, x);
                assert(member_leaves(v1, sorted[k]).contains(x));
            }
            if exists|k: int| 0 <= k < sorted.len() && #[trigger] member_leaves(v1, sorted[k]).contains(x) {
                let k = choose|k: int| 0 <= k < sorted.len() && #[trigger] member_leaves(v1, sorted[k]).contains(x);
                let y = sorted[k];
                assert(sorted.to_set().contains(y));
                assert(lx.contains(y));
                lemma_leaves_extend(v, v1, y);
                assert(member_leaves(v, y) == set![y]);
            }
        }
        assert(m =~= stripped);
        assert(strip_special(stripped) =~= stripped);
    }
}

/// A union given another union's identity as a member is the union of
/// that union's members: nested unions are flattened.
pub proof fn lemma_union_flattens(v: Seq<KindView>, xs: Seq<TypeId>, ys: Seq<TypeId>)
    requires
        store_wf(v),
        forall|i: int| 0 <= i < xs.len() ==> valid_id(v, #[trigger] xs[i]),
        forall|i: int| 0 <= i < ys.len() ==> valid_id(v, #[trigger] ys[i]),
        union_fits(v, xs),
    ensures
        ({
            let v1 = union_view(v, xs);
            let u = union_id(v, xs);
            &&& store_wf(v1)
            &&& union_view(v1, seq![u] + ys) == union_view(v1, xs + ys)
            &&& union_id(v1, seq![u] + ys) == union_id(v1, xs + ys)
        }),
{
    broadcast use group_type_id;

    lemma_union_id_leaves(v, xs);
    let n = v.len() as int;
    let v1 = union_view(v, xs);
    let u = union_id(v, xs);
    let n1 = v1.len() as int;
    let lx = leaves_of(v, xs, n);
    let ly = leaves_of(v, ys, n);
    let m = member_leaves(v1, u);
    assert forall|i: int| 0 <= i < xs.len() implies (#[trigger] xs[i]).idx() < n by {}
    assert forall|i: int| 0 <= i < ys.len() implies (#[trigger] ys[i]).idx() < n by {}
    let us = seq![u];
    assert forall|i: int| 0 <= i < us.len() implies (#[trigger] us[i]).idx() < n1 by {}
    lemma_leaves_concat(v1, xs, ys, n1);
    lemma_leaves_concat(v1, us, ys, n1);
    lemma_leaves_of_bound(v1, xs, n, n1);
    lemma_leaves_of_bound(v1, ys, n, n1);
    lemma_leaves_of_extend(v, v1, xs, n);
    lemma_leaves_of_extend(v, v1, ys, n);
    assert(us.drop_last() =~= Seq::<TypeId>::empty());
    assert(leaves_of(v1, us, n1) =~= m) by {
        assert(leaves_of(v1, Seq::<TypeId>::empty(), n1) =~= Set::<TypeId>::empty());
        assert(us.last() == u);
    }
    let l1 = m + ly;
    let l2 = lx + ly;
    assert(leaves_of(v1, us + ys, n1) == l1);
    assert(leaves_of(v1, xs + ys, n1) == l2);
    if !lx.contains(any_id()) && !lx.contains(unknown_id()) {
        lemma_strip_union(m, ly);
        lemma_strip_union(lx, ly);
        assert(union_leaves(v1, us + ys) == union_leaves(v1, xs + ys));
    }
    lemma_plan_by_leaves(v1, us + ys, xs + ys);
}

impl Default for TypeStore {
    fn default() -> (r: TypeStore)
        ensures
            r@ == primitive_kinds(),
            r.wf(),
    {
        TypeStore::new()
    }
}

} // verus!
