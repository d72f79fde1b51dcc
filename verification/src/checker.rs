//! The type checker: resolves annotations to interned types, infers the
//! types of supported expressions, and reports assignability, arity and
//! structural diagnostics for declarations, assignments, calls and returns.

use std::collections::HashMap;

use vstd::prelude::*;

use crate::diagnostic::TextRange;
use crate::relations::TypeRelations;
use crate::signatures::{Signature, SignatureId, SignatureParameter, SignatureStore};
use crate::syntax::{
    Argument, ArrayElement, AssignmentExpression, Binding, CallExpr, DeclaredName, Expr, ExprKind,
    FunctionDeclaration, Keyword, LiteralType, ObjectMember, Parameter, ReturnStatement, TopLevel, TypeMember,
    TypeNode, TypeNodeKind, VariableDeclarator,
};
use crate::types::{
    group_type_id, interned_id, interned_view, kind_fits, lemma_intern_wf, lemma_union_id_leaves,
    primitive_kinds, properties_view, store_wf, union_id, union_view, valid_id, display_pieces, pieces_view,
    DisplayPiece, KindView, NumberLiteral, ObjectTypeProperty, PieceView, TypeId, TypeKind,
    TypeStore,
};

verus! {

broadcast use group_type_id;

/// A diagnostic found by the checker. Its message is pieces of text and
/// numeric literals; rendering the numbers is left to the caller.
#[derive(Debug)]
pub struct CheckDiagnostic {
    pub code: String,
    pub message: Vec<DisplayPiece>,
    pub range: Option<TextRange>,
}

/// The names of a list of named declarations.
pub open spec fn names_of<T>(v: Seq<(&str, T)>) -> Seq<Seq<char>> {
    v.map_values(|p: (&str, T)| p.0@)
}

/// The views of a list of strings.
pub open spec fn strings_view(v: Seq<String>) -> Seq<Seq<char>> {
    v.map_values(|s: String| s@)
}

/// The index of the last entry named `name`, if any.
pub open spec fn last_named(names: Seq<Seq<char>>, name: Seq<char>) -> Option<int>
    decreases names.len(),
{
    if names.len() == 0 {
        None
    } else if names.last() == name {
        Some(names.len() - 1)
    } else {
        last_named(names.drop_last(), name)
    }
}

proof fn lemma_last_named(names: Seq<Seq<char>>, name: Seq<char>)
    ensures
        match last_named(names, name) {
            Some(i) => 0 <= i < names.len() && names[i] == name,
            None => !names.contains(name),
        },
    decreases names.len(),
{
    if names.len() > 0 && names.last() != name {
        lemma_last_named(names.drop_last(), name);
        if names.contains(name) {
            let i = choose|i: int| 0 <= i < names.len() && names[i] == name;
            assert(names.drop_last()[i] == name);
        }
    }
}

/// A sequence without repeats whose entries all occur in `d` is no longer than `d`.
proof fn lemma_distinct_within(r: Seq<Seq<char>>, d: Seq<Seq<char>>)
    requires
        r.no_duplicates(),
        forall|i: int| 0 <= i < r.len() ==> d.contains(#[trigger] r[i]),
    ensures
        r.len() <= d.len(),
{
    r.unique_seq_to_set();
    d.lemma_cardinality_of_set();
    assert(r.to_set().subset_of(d.to_set())) by {
        assert forall|x: Seq<char>| r.to_set().contains(x) implies d.to_set().contains(x) by {
            let i = choose|i: int| 0 <= i < r.len() && r[i] == x;
            assert(d.contains(r[i]));
        }
    }
    vstd::set_lib::lemma_len_subset(r.to_set(), d.to_set());
}

proof fn lemma_prefix_trans(a: Seq<KindView>, b: Seq<KindView>, c: Seq<KindView>)
    requires
        a.is_prefix_of(b),
        b.is_prefix_of(c),
    ensures
        a.is_prefix_of(c),
{
    assert(c.subrange(0, a.len() as int) =~= b.subrange(0, a.len() as int));
}

/// The members of a union in a well-formed store lie below it.
proof fn lemma_union_members_below(v: Seq<KindView>, t: TypeId)
    requires
        crate::types::store_wf(v),
        valid_id(v, t),
        v[t.idx() as int] is Union,
    ensures
        forall|k: int|
            0 <= k < v[t.idx() as int]->Union_0.len() ==> (#[trigger] v[t.idx() as int]->Union_0[k]).idx()
                < t.idx(),
{
    let j = t.idx() as int;
    assert(v[j] matches KindView::Union(ms) ==> forall|k: int|
        0 <= k < ms.len() ==> (#[trigger] ms[k]).idx() < j);
}

/// The element of an array and the property types of an object in a
/// well-formed store lie below it.
proof fn lemma_parts_below(v: Seq<KindView>, t: TypeId)
    requires
        crate::types::store_wf(v),
        valid_id(v, t),
    ensures
        v[t.idx() as int] is Array ==> (v[t.idx() as int]->Array_0).idx() < t.idx(),
        v[t.idx() as int] is Object ==> forall|k: int|
            0 <= k < v[t.idx() as int]->Object_0.len() ==> (#[trigger] v[t.idx() as int]->Object_0[k]).type_id.idx()
                < t.idx(),
{
    let j = t.idx() as int;
    assert(crate::types::parts_below(v[j], j));
    if v[j] is Object {
        let ps = v[j]->Object_0;
        assert forall|k: int| 0 <= k < ps.len() implies (#[trigger] ps[k]).type_id.idx() < j by {
            let kv = v[j];
            assert(kv->Object_0[k].type_id.idx() < j);
        }
    }
}

/// Whether every type a signature names is valid in the store `v`.
pub open spec fn signature_valid(v: Seq<KindView>, s: Signature) -> bool {
    &&& valid_id(v, s.return_type)
    &&& forall|i: int| 0 <= i < s.parameters@.len() ==> valid_id(v, #[trigger] s.parameters@[i].type_id)
}

/// The state of one checker run.
pub struct Checker<'a> {
    aliases: Vec<(&'a str, &'a TypeNode)>,
    interfaces: Vec<(&'a str, &'a Vec<TypeMember>)>,
    resolving: Vec<String>,
    diagnostics: Vec<CheckDiagnostic>,
    types: TypeStore,
    relations: TypeRelations,
    signatures: SignatureStore,
    function_signatures: HashMap<u32, SignatureId>,
    symbol_types: HashMap<u32, TypeId>,
    current_signature: Option<SignatureId>,
}

impl<'a> Checker<'a> {
    /// The names of the aliases and interfaces, in that order.
    pub closed spec fn declared(&self) -> Seq<Seq<char>> {
        names_of(self.aliases@) + names_of(self.interfaces@)
    }

    /// The aliases and interfaces, by name.
    pub closed spec fn decls(&self) -> Declarations<'a> {
        Declarations { aliases: self.aliases@, interfaces: self.interfaces@ }
    }

    /// What typing an expression reads of the checker.
    pub closed spec fn ectx(&self) -> ExprContext {
        ExprContext {
            symbol_types: self.symbol_types@,
            function_signatures: self.function_signatures@,
            returns: self.signatures@.map_values(|s: Signature| s.return_type),
        }
    }

    /// A declared name that is not being resolved leaves room to resolve it.
    proof fn lemma_room_to_resolve(&self, name: Seq<char>)
        requires
            self.inv(),
            self.declared().contains(name),
            !strings_view(self.resolving@).contains(name),
        ensures
            strings_view(self.resolving@).len() < declared_names(self.decls()).len(),
    {
        let r = strings_view(self.resolving@);
        let r2 = r.push(name);
        assert(r2.no_duplicates()) by {
            assert forall|i: int, j: int| 0 <= i < r2.len() && 0 <= j < r2.len() && i != j implies r2[i] != r2[j] by {
                if i < r.len() && j < r.len() {
                    assert(r2[i] == r[i] && r2[j] == r[j]);
                } else if i < r.len() {
                    assert(r2[i] == r[i]);
                } else {
                    assert(r2[j] == r[j]);
                }
            }
        }
        assert forall|i: int| 0 <= i < r2.len() implies self.declared().contains(#[trigger] r2[i]) by {
            if i < r.len() {
                assert(r2[i] == r[i]);
            }
        }
        lemma_distinct_within(r2, self.declared());
    }

    /// How many declared names are not being resolved.
    pub closed spec fn free_names(&self) -> nat {
        (self.declared().len() - self.resolving@.len()) as nat
    }

    /// The contents of the type store.
    pub closed spec fn types_view(&self) -> Seq<KindView> {
        self.types@
    }

    /// The checker's invariant.
    pub closed spec fn inv(&self) -> bool {
        &&& self.types.wf()
        &&& self.relations.at_rest()
        &&& self.relations.seen_view().is_prefix_of(self.types@)
        &&& forall|s: u32| #[trigger]
            self.symbol_types@.contains_key(s) ==> valid_id(self.types@, self.symbol_types@[s])
        &&& forall|s: u32| #[trigger]
            self.function_signatures@.contains_key(s) ==> self.function_signatures@[s].idx()
                < self.signatures@.len()
        &&& forall|i: int|
            0 <= i < self.signatures@.len() ==> signature_valid(self.types@, #[trigger] self.signatures@[i])
        &&& (self.current_signature matches Some(id) ==> id.idx() < self.signatures@.len())
        &&& strings_view(self.resolving@).no_duplicates()
        &&& forall|i: int|
            0 <= i < strings_view(self.resolving@).len() ==> self.declared().contains(
                #[trigger] strings_view(self.resolving@)[i],
            )
    }

    /// `new` differs from `old` only in types added to the store.
    pub closed spec fn grown(old: &Self, new: &Self) -> bool {
        &&& old.types@.is_prefix_of(new.types@)
        &&& new.aliases == old.aliases
        &&& new.interfaces == old.interfaces
        &&& strings_view(new.resolving@) == strings_view(old.resolving@)
        &&& new.diagnostics@ == old.diagnostics@
        &&& new.signatures@ == old.signatures@
        &&& new.function_signatures@ == old.function_signatures@
        &&& new.symbol_types@ == old.symbol_types@
        &&& new.current_signature == old.current_signature
    }

    /// The resolving list is no longer than the declared names.
    proof fn lemma_free_names(&self)
        requires
            self.inv(),
        ensures
            self.resolving@.len() <= self.declared().len(),
    {
        lemma_distinct_within(strings_view(self.resolving@), self.declared());
    }

    /// What `grown` keeps: the invariant holds again once the store has grown.
    proof fn lemma_grown_inv(old: &Self, new: &Self)
        requires
            old.inv(),
            new.types.wf(),
            old.types@.is_prefix_of(new.types@),
            new.relations == old.relations,
            new.aliases == old.aliases,
            new.interfaces == old.interfaces,
            strings_view(new.resolving@) == strings_view(old.resolving@),
            new.signatures@ == old.signatures@,
            new.function_signatures@ == old.function_signatures@,
            new.symbol_types@ == old.symbol_types@,
            new.current_signature == old.current_signature,
        ensures
            new.inv(),
    {
        lemma_prefix_trans(old.relations.seen_view(), old.types@, new.types@);
        assert forall|i: int| 0 <= i < new.signatures@.len() implies signature_valid(
            new.types@,
            #[trigger] new.signatures@[i],
        ) by {
            assert(signature_valid(old.types@, old.signatures@[i]));
        }
        assert(new.declared() == old.declared());
    }

    /// Intern a kind, when the store has room for a new slot.
    fn intern(&mut self, kind: TypeKind) -> (r: Option<TypeId>)
        requires
            old(self).inv(),
            kind_fits(old(self).types@, kind@),
        ensures
            final(self).inv(),
            Self::grown(old(self), final(self)),
            old(self).types@.len() < 0xFFFF_FFFF ==> r == Some(interned_id(old(self).types@, kind@))
                && final(self).types@ == interned_view(old(self).types@, kind@),
            old(self).types@.len() >= 0xFFFF_FFFF ==> r is None && final(self).types@ == old(
                self,
            ).types@,
            r matches Some(id) ==> valid_id(final(self).types@, id) && final(self).types@[id.idx() as int]
                == kind@,
    {
        if self.types.len() >= 0xFFFF_FFFF {
            return None;
        }
        let ghost before = *self;
        proof {
            lemma_intern_wf(self.types@, kind@);
        }
        let id = self.types.intern(kind);
        proof {
            Self::lemma_grown_inv(&before, self);
        }
        Some(id)
    }

    /// The union of `members`, when the store has room for it.
    fn union_of(&mut self, members: &[TypeId]) -> (r: Option<TypeId>)
        requires
            old(self).inv(),
            forall|i: int| 0 <= i < members@.len() ==> valid_id(old(self).types@, #[trigger] members@[i]),
        ensures
            final(self).inv(),
            Self::grown(old(self), final(self)),
            old(self).types@.len() < 0xFFFF_FFFF ==> r == Some(union_id(old(self).types@, members@))
                && final(self).types@ == union_view(old(self).types@, members@),
            old(self).types@.len() >= 0xFFFF_FFFF ==> r is None && final(self).types@ == old(
                self,
            ).types@,
            r matches Some(id) ==> valid_id(final(self).types@, id),
    {
        if self.types.len() >= 0xFFFF_FFFF {
            return None;
        }
        let ghost before = *self;
        proof {
            lemma_union_id_leaves(self.types@, members@);
        }
        let id = self.types.union(members);
        proof {
            Self::lemma_grown_inv(&before, self);
        }
        Some(id)
    }

    /// The primitive type a keyword annotation names.
    fn keyword_type(&self, keyword: Keyword) -> (r: TypeId)
        ensures
            r == TypeId::from_index(keyword_index(keyword)),
    {
        let primitives = self.types.primitives();
        match keyword {
            Keyword::Any => primitives.any,
            Keyword::Unknown => primitives.unknown,
            Keyword::Never => primitives.never,
            Keyword::Void => primitives.void,
            Keyword::Undefined => primitives.undefined,
            Keyword::Null => primitives.null,
            Keyword::Boolean => primitives.boolean,
            Keyword::Number => primitives.number,
            Keyword::BigInt => primitives.bigint,
            Keyword::String => primitives.string,
        }
    }

    /// The type of a literal annotation.
    fn type_from_literal(&mut self, literal: &LiteralType) -> (r: Option<TypeId>)
        requires
            old(self).inv(),
        ensures
            final(self).inv(),
            Self::grown(old(self), final(self)),
            (final(self).types@, r) == match literal_kind(literal) {
                Some(k) => intern_step(old(self).types@, k),
                None => (old(self).types@, None),
            },
            r matches Some(id) ==> valid_id(final(self).types@, id),
    {
        let kind = match literal {
            LiteralType::Boolean(value) => TypeKind::BooleanLiteral(*value),
            LiteralType::Number(bits) => TypeKind::NumberLiteral(NumberLiteral::from_bits(*bits)),
            LiteralType::BigInt(value) => TypeKind::BigIntLiteral(value.clone()),
            LiteralType::String(value) => TypeKind::StringLiteral(value.clone()),
            LiteralType::NegatedNumber(bits) => TypeKind::NumberLiteral(
                NumberLiteral::from_bits(*bits ^ 0x8000_0000_0000_0000u64),
            ),
            LiteralType::Unsupported => return None,
        };
        self.intern(kind)
    }

    /// Whether `name` is being resolved.
    fn is_resolving(&self, name: &str) -> (r: bool)
        ensures
            r == strings_view(self.resolving@).contains(name@),
    {
        let ghost names = strings_view(self.resolving@);
        let mut i: usize = 0;
        while i < self.resolving.len()
            invariant
                names == strings_view(self.resolving@),
                i <= names.len(),
                forall|k: int| 0 <= k < i ==> names[k] != name@,
            decreases names.len() - i,
        {
            if crate::text::str_equal(self.resolving[i].as_str(), name) {
                assert(names[i as int] == name@);
                return true;
            }
            i = i + 1;
        }
        false
    }

    /// The annotation of the last alias named `name`, if any.
    fn lookup_alias(&self, name: &str) -> (r: Option<&'a TypeNode>)
        ensures
            match last_named(names_of(self.aliases@), name@) {
                Some(i) => r == Some(self.aliases@[i].1),
                None => r is None,
            },
    {
        let ghost names = names_of(self.aliases@);
        let mut i: usize = self.aliases.len();
        assert(names.take(names.len() as int) =~= names);
        while i > 0
            invariant
                names == names_of(self.aliases@),
                i <= names.len(),
                last_named(names, name@) == last_named(names.take(i as int), name@),
            decreases i,
        {
            let ghost t = names.take(i as int);
            assert(t.drop_last() =~= names.take(i - 1));
            assert(t.last() == self.aliases@[i - 1].0@);
            if crate::text::str_equal(self.aliases[i - 1].0, name) {
                return Some(self.aliases[i - 1].1);
            }
            i = i - 1;
        }
        None
    }

    /// The members of the last interface named `name`, if any.
    fn lookup_interface(&self, name: &str) -> (r: Option<&'a Vec<TypeMember>>)
        ensures
            match last_named(names_of(self.interfaces@), name@) {
                Some(i) => r == Some(self.interfaces@[i].1),
                None => r is None,
            },
    {
        let ghost names = names_of(self.interfaces@);
        let mut i: usize = self.interfaces.len();
        assert(names.take(names.len() as int) =~= names);
        while i > 0
            invariant
                names == names_of(self.interfaces@),
                i <= names.len(),
                last_named(names, name@) == last_named(names.take(i as int), name@),
            decreases i,
        {
            let ghost t = names.take(i as int);
            assert(t.drop_last() =~= names.take(i - 1));
            assert(t.last() == self.interfaces@[i - 1].0@);
            if crate::text::str_equal(self.interfaces[i - 1].0, name) {
                return Some(self.interfaces[i - 1].1);
            }
            i = i - 1;
        }
        None
    }

    /// Start resolving the declared name `name`.
    fn push_resolving(&mut self, name: &str)
        requires
            old(self).inv(),
            !strings_view(old(self).resolving@).contains(name@),
            old(self).declared().contains(name@),
        ensures
            final(self).inv(),
            strings_view(final(self).resolving@) == strings_view(old(self).resolving@).push(name@),
            final(self).free_names() + 1 == old(self).free_names(),
            final(self).types@ == old(self).types@,
            final(self).relations == old(self).relations,
            final(self).aliases == old(self).aliases,
            final(self).interfaces == old(self).interfaces,
            final(self).diagnostics@ == old(self).diagnostics@,
            final(self).signatures@ == old(self).signatures@,
            final(self).function_signatures@ == old(self).function_signatures@,
            final(self).symbol_types@ == old(self).symbol_types@,
            final(self).current_signature == old(self).current_signature,
    {
        let ghost before = strings_view(self.resolving@);
        self.resolving.push(name.to_owned());
        proof {
            let after = strings_view(self.resolving@);
            assert(after =~= before.push(name@));
            assert(after.no_duplicates()) by {
                assert forall|i: int, j: int| 0 <= i < after.len() && 0 <= j < after.len() && i != j implies after[i] != after[j] by {
                    if i < before.len() && j < before.len() {
                        assert(after[i] == before[i] && after[j] == before[j]);
                    } else if i < before.len() {
                        assert(after[i] == before[i]);
                    } else {
                        assert(after[j] == before[j]);
                    }
                }
            }
            assert forall|i: int| 0 <= i < strings_view(self.resolving@).len() implies self.declared().contains(
                #[trigger] strings_view(self.resolving@)[i],
            ) by {
                if i < before.len() {
                    assert(after[i] == before[i]);
                }
            }
            self.lemma_free_names();
        }
    }

    /// Finish resolving the most recently pushed name.
    fn pop_resolving(&mut self)
        requires
            old(self).inv(),
            old(self).resolving@.len() > 0,
        ensures
            final(self).inv(),
            strings_view(final(self).resolving@) == strings_view(old(self).resolving@).drop_last(),
            final(self).types@ == old(self).types@,
            final(self).relations == old(self).relations,
            final(self).aliases == old(self).aliases,
            final(self).interfaces == old(self).interfaces,
            final(self).diagnostics@ == old(self).diagnostics@,
            final(self).signatures@ == old(self).signatures@,
            final(self).function_signatures@ == old(self).function_signatures@,
            final(self).symbol_types@ == old(self).symbol_types@,
            final(self).current_signature == old(self).current_signature,
    {
        let ghost before = strings_view(self.resolving@);
        self.resolving.pop();
        proof {
            let after = strings_view(self.resolving@);
            assert(after =~= before.drop_last());
            assert forall|i: int| 0 <= i < strings_view(self.resolving@).len() implies self.declared().contains(
                #[trigger] strings_view(self.resolving@)[i],
            ) by {
                assert(after[i] == before[i]);
            }
        }
    }

    /// The element annotation of `Array<T>`, when `node` is that reference.
    fn generic_array_element<'b>(node: &'b TypeNode) -> (r: Option<&'b TypeNode>)
        ensures
            match r {
                Some(e) => node.kind matches TypeNodeKind::Reference { name: Some(n), arguments: Some(args) }
                    && n@ == "Array"@ && args@.len() == 1 && e == &args@[0],
                None => !(node.kind matches TypeNodeKind::Reference { name: Some(n), arguments: Some(args) }
                    && n@ == "Array"@ && args@.len() == 1),
            },
    {
        match &node.kind {
            TypeNodeKind::Reference { name: Some(name), arguments: Some(arguments) } => {
                if crate::text::str_equal(name.as_str(), "Array") && arguments.len() == 1 {
                    Some(&arguments[0])
                } else {
                    None
                }
            },
            _ => None,
        }
    }

    /// The type an annotation denotes, if it is supported: keywords,
    /// literals, unions, arrays (`T[]` and `Array<T>`), object type literals,
    /// references to aliases and interfaces that are not being resolved
    /// already, and parenthesized annotations.
    fn type_from_annotation(&mut self, node: &TypeNode) -> (r: Option<TypeId>)
        requires
            old(self).inv(),
        ensures
            final(self).inv(),
            Self::grown(old(self), final(self)),
            r matches Some(id) ==> valid_id(final(self).types@, id),
            (final(self).types@, r) == annotation_type(
                old(self).decls(),
                old(self).types@,
                strings_view(old(self).resolving@),
                *node,
            ),
        decreases old(self).free_names(), node,
    {
        let ghost d = self.decls();
        let ghost res = strings_view(self.resolving@);
        match &node.kind {
            TypeNodeKind::Keyword(keyword) => Some(self.keyword_type(*keyword)),
            TypeNodeKind::Literal(literal) => self.type_from_literal(literal),
            TypeNodeKind::Union(members) => {
                let ghost start = *self;
                let mut ids: Vec<TypeId> = Vec::new();
                let mut i: usize = 0;
                assert(members@.take(0) =~= Seq::<TypeNode>::empty());
                while i < members.len()
                    invariant
                        self.inv(),
                        Self::grown(&start, self),
                        start == *old(self),
                        start.inv(),
                        d == start.decls(),
                        res == strings_view(start.resolving@),
                        node.kind == TypeNodeKind::Union(*members),
                        i <= members@.len(),
                        forall|k: int| 0 <= k < ids@.len() ==> valid_id(self.types@, #[trigger] ids@[k]),
                        annotation_list(d, start.types@, res, members@.take(i as int)) == (
                            self.types@,
                            Some(ids@),
                        ),
                    decreases members@.len() - i,
                {
                    let ghost before = *self;
                    assert(self.free_names() == start.free_names());
                    proof {
                        vstd::std_specs::vec::axiom_vec_index_decreases(*members, i as int);
                        assert(decreases_to!(*members => members[i as int]));
                        assert(decreases_to!(node.kind => node.kind->Union_0));
                        assert(node.kind->Union_0 == *members);
                        assert(decreases_to!(*node => node.kind));
                        assert(decreases_to!(*node => members[i as int]));
                    }
                    let member = self.type_from_annotation(&members[i]);
                    proof {
                        let t = members@.take(i as int + 1);
                        assert(t.drop_last() =~= members@.take(i as int));
                        assert(t.last() == members@[i as int]);
                        assert(self.decls() == d);
                    }
                    match member {
                        Some(id) => ids.push(id),
                        None => {
                            proof {
                                lemma_annotation_list_stops(d, start.types@, res, members@, i as int + 1);
                            }
                            return None;
                        },
                    }
                    proof {
                        lemma_prefix_trans(start.types@, before.types@, self.types@);
                    }
                    i = i + 1;
                }
                assert(members@.take(members@.len() as int) =~= members@);
                self.union_of(ids.as_slice())
            },
            TypeNodeKind::Array(element) => {
                let element = self.type_from_annotation(element);
                match element {
                    Some(e) => self.intern(TypeKind::Array(e)),
                    None => None,
                }
            },
            TypeNodeKind::TypeLiteral(members) => self.type_from_property_members(members),
            TypeNodeKind::Reference { name, arguments } => {
                if let Some(element) = Self::generic_array_element(node) {
                    let element = self.type_from_annotation(element);
                    return match element {
                        Some(e) => self.intern(TypeKind::Array(e)),
                        None => None,
                    };
                }
                if arguments.is_some() {
                    return None;
                }
                let name = match name {
                    Some(name) => name,
                    None => return None,
                };
                if self.is_resolving(name.as_str()) {
                    return None;
                }
                if let Some(alias) = self.lookup_alias(name.as_str()) {
                    proof {
                        lemma_last_named(names_of(self.aliases@), name@);
                        let i = last_named(names_of(self.aliases@), name@)->0;
                        assert(self.declared()[i] == name@);
                        self.lemma_room_to_resolve(name@);
                    }
                    self.push_resolving(name.as_str());
                    let resolved = self.type_from_annotation(alias);
                    self.pop_resolving();
                    proof {
                        assert(strings_view(self.resolving@) =~= strings_view(old(self).resolving@));
                    }
                    resolved
                } else if let Some(members) = self.lookup_interface(name.as_str()) {
                    proof {
                        lemma_last_named(names_of(self.interfaces@), name@);
                        let i = last_named(names_of(self.interfaces@), name@)->0;
                        assert(self.declared()[names_of(self.aliases@).len() + i] == name@);
                        self.lemma_room_to_resolve(name@);
                    }
                    self.push_resolving(name.as_str());
                    let resolved = self.type_from_property_members(members);
                    self.pop_resolving();
                    proof {
                        assert(strings_view(self.resolving@) =~= strings_view(old(self).resolving@));
                    }
                    resolved
                } else {
                    None
                }
            },
            TypeNodeKind::Parenthesized(inner) => self.type_from_annotation(inner),
            TypeNodeKind::Other => None,
        }
    }

    /// The object type of a list of property signatures, when every member
    /// is a statically named, non-computed property with a supported
    /// annotation.
    fn type_from_property_members(&mut self, members: &Vec<TypeMember>) -> (r: Option<TypeId>)
        requires
            old(self).inv(),
        ensures
            final(self).inv(),
            Self::grown(old(self), final(self)),
            r matches Some(id) ==> valid_id(final(self).types@, id),
            (final(self).types@, r) == ({
                let (v1, ps) = property_list(
                    old(self).decls(),
                    old(self).types@,
                    strings_view(old(self).resolving@),
                    members@,
                );
                match ps {
                    Some(ps) => intern_step(v1, KindView::Object(ps)),
                    None => (v1, None),
                }
            }),
        decreases old(self).free_names(), members,
    {
        let ghost start = *self;
        let ghost d = self.decls();
        let ghost res = strings_view(self.resolving@);
        let mut properties: Vec<ObjectTypeProperty> = Vec::new();
        let mut i: usize = 0;
        assert(members@.take(0) =~= Seq::<TypeMember>::empty());
        assert(properties_view(properties@) =~= Seq::<crate::types::PropertyView>::empty());
        while i < members.len()
            invariant
                self.inv(),
                Self::grown(&start, self),
                start == *old(self),
                start.inv(),
                d == start.decls(),
                res == strings_view(start.resolving@),
                i <= members@.len(),
                forall|k: int| 0 <= k < properties@.len() ==> valid_id(self.types@, #[trigger] properties@[k].type_id),
                property_list(d, start.types@, res, members@.take(i as int)) == (
                    self.types@,
                    Some(properties_view(properties@)),
                ),
            decreases members@.len() - i,
        {
            let ghost before = *self;
            proof {
                let t = members@.take(i as int + 1);
                assert(t.drop_last() =~= members@.take(i as int));
                assert(t.last() == members@[i as int]);
            }
            let property = match &members[i] {
                TypeMember::Property(property) => property,
                TypeMember::Other => {
                    proof {
                        lemma_property_list_stops(d, start.types@, res, members@, i as int + 1);
                    }
                    return None;
                },
            };
            if property.computed {
                proof {
                    lemma_property_list_stops(d, start.types@, res, members@, i as int + 1);
                }
                return None;
            }
            let name = match &property.name {
                Some(name) => name,
                None => {
                    proof {
                        lemma_property_list_stops(d, start.types@, res, members@, i as int + 1);
                    }
                    return None;
                },
            };
            let annotation = match &property.annotation {
                Some(annotation) => annotation,
                None => {
                    proof {
                        lemma_property_list_stops(d, start.types@, res, members@, i as int + 1);
                    }
                    return None;
                },
            };
            assert(self.free_names() == start.free_names());
            let type_id = match self.type_from_annotation(annotation) {
                Some(id) => id,
                None => {
                    proof {
                        assert(self.decls() == d);
                        lemma_property_list_stops(d, start.types@, res, members@, i as int + 1);
                    }
                    return None;
                },
            };
            let ghost before_push = properties_view(properties@);
            properties.push(ObjectTypeProperty { name: name.clone(), type_id, optional: property.optional });
            proof {
                assert(properties_view(properties@) =~= before_push.push(
                    crate::types::PropertyView { name: name@, type_id, optional: property.optional },
                ));
                lemma_prefix_trans(start.types@, before.types@, self.types@);
            }
            i = i + 1;
        }
        assert(members@.take(members@.len() as int) =~= members@);
        if self.types.len() >= 0xFFFF_FFFF {
            return None;
        }
        self.intern(TypeKind::Object(properties))
    }
}

impl<'a> Checker<'a> {
    /// Whether a value checked against `target` keeps its literal type.
    fn requires_literal_identity(&self, target: TypeId) -> (r: bool)
        ensures
            r == literal_target(self.types@, target),
    {
        match self.types.kind(target) {
            Some(TypeKind::BooleanLiteral(_)) | Some(TypeKind::NumberLiteral(_)) | Some(
                TypeKind::BigIntLiteral(_),
            ) | Some(TypeKind::StringLiteral(_)) | Some(TypeKind::Union(_)) => true,
            _ => false,
        }
    }

    /// The source type a diagnostic against `target` names: literals are
    /// widened when the target is a primitive other than `any`, `unknown`,
    /// `never` and `void`.
    fn diagnostic_source_type(&self, source: TypeId, target: TypeId) -> (r: TypeId)
        ensures
            r == diagnostic_source(self.types@, source, target),
    {
        match self.types.kind(target) {
            Some(TypeKind::Boolean) | Some(TypeKind::Number) | Some(TypeKind::BigInt) | Some(
                TypeKind::String,
            ) | Some(TypeKind::Null) | Some(TypeKind::Undefined) => self.types.widen_literal(source),
            _ => source,
        }
    }

    /// The declared type of a symbol, if it has one.
    fn symbol_type(&self, symbol: Option<u32>) -> (r: Option<TypeId>)
        requires
            self.inv(),
        ensures
            r == symbol_type_of(self.symbol_types@, symbol),
            r matches Some(id) ==> valid_id(self.types@, id),
    {
        match symbol {
            Some(symbol) => match self.symbol_types.get(&symbol) {
                Some(id) => Some(*id),
                None => None,
            },
            None => None,
        }
    }

    /// The signature a direct, non-optional call of a named function selects.
    fn signature_for_call(&self, call: &CallExpr) -> (r: Option<SignatureId>)
        requires
            self.inv(),
        ensures
            r == call_signature(self.function_signatures@, call),
            r matches Some(id) ==> id.idx() < self.signatures@.len(),
    {
        if call.optional || call.has_type_arguments {
            return None;
        }
        match &call.callee.kind {
            ExprKind::Identifier { symbol: Some(symbol), .. } => match self.function_signatures.get(symbol) {
                Some(id) => Some(*id),
                None => None,
            },
            _ => None,
        }
    }

    /// The element type that an array literal checked against `target`
    /// is typed with: an array target's element type, or the union of the
    /// element types of a union target's array members.
    fn contextual_array_element_target(&mut self, target: TypeId) -> (r: Option<TypeId>)
        requires
            old(self).inv(),
        ensures
            final(self).inv(),
            Self::grown(old(self), final(self)),
            r matches Some(id) ==> valid_id(final(self).types@, id),
            (final(self).types@, r) == array_element_target(old(self).types@, target),
    {
        let ghost start = *self;
        let ghost v = self.types@;
        let mut elements: Vec<TypeId> = Vec::new();
        match self.types.kind(target) {
            Some(TypeKind::Array(element)) => {
                proof {
                    lemma_parts_below(self.types@, target);
                }
                return Some(*element);
            },
            Some(TypeKind::Union(members)) => {
                proof {
                    assert(self.types@[target.idx() as int] == KindView::Union(members@));
                    lemma_union_members_below(self.types@, target);
                }
                let mut i: usize = 0;
                assert(members@.take(0) =~= Seq::<TypeId>::empty());
                while i < members.len()
                    invariant
                        *self == start,
                        start.inv(),
                        v == start.types@,
                        valid_id(start.types@, target),
                        start.types@[target.idx() as int] == KindView::Union(members@),
                        i <= members@.len(),
                        forall|k: int| 0 <= k < elements@.len() ==> valid_id(start.types@, #[trigger] elements@[k]),
                        elements@ == array_elements(v, members@.take(i as int)),
                    decreases members@.len() - i,
                {
                    proof {
                        lemma_union_members_below(start.types@, target);
                        assert(start.types@[target.idx() as int]->Union_0[i as int] == members@[i as int]);
                        assert(members@[i as int].idx() < target.idx());
                        let t = members@.take(i as int + 1);
                        assert(t.drop_last() =~= members@.take(i as int));
                        assert(t.last() == members@[i as int]);
                    }
                    match self.types.kind(members[i]) {
                        Some(TypeKind::Array(element)) => {
                            proof {
                                lemma_parts_below(self.types@, members@[i as int]);
                            }
                            elements.push(*element);
                        },
                        _ => {},
                    }
                    i = i + 1;
                }
                assert(members@.take(members@.len() as int) =~= members@);
            },
            _ => {
                return None;
            },
        }
        if elements.len() == 0 {
            return None;
        }
        self.union_of(elements.as_slice())
    }

    /// The type that a property `name` of an object literal checked
    /// against `target` is typed with: the type of the object target's first
    /// property of that name, or the union of those of a union target's
    /// object members.
    fn contextual_object_property_target(&mut self, target: TypeId, name: &str) -> (r: Option<TypeId>)
        requires
            old(self).inv(),
        ensures
            final(self).inv(),
            Self::grown(old(self), final(self)),
            r matches Some(id) ==> valid_id(final(self).types@, id),
            (final(self).types@, r) == property_target(old(self).types@, target, name@),
    {
        let ghost start = *self;
        let ghost v = self.types@;
        match self.types.kind(target) {
            Some(TypeKind::Object(properties)) => {
                let j = Self::find_property(properties, name);
                proof {
                    let t = target.idx() as int;
                    assert(self.types@[t] == KindView::Object(properties_view(properties@)));
                    lemma_parts_below(self.types@, target);
                    lemma_first_property(properties@, name@, j);
                    if let Some(k) = j {
                        assert(properties_view(properties@)[k as int] == properties@[k as int]@);
                        assert(self.types@[t]->Object_0[k as int].type_id.idx() < t);
                    }
                }
                return match j {
                    Some(k) => Some(properties[k].type_id),
                    None => None,
                };
            },
            Some(TypeKind::Union(members)) => {
                proof {
                    assert(self.types@[target.idx() as int] == KindView::Union(members@));
                    lemma_union_members_below(self.types@, target);
                }
                let mut found: Vec<TypeId> = Vec::new();
                let mut i: usize = 0;
                assert(members@.take(0) =~= Seq::<TypeId>::empty());
                while i < members.len()
                    invariant
                        *self == start,
                        start.inv(),
                        v == start.types@,
                        valid_id(start.types@, target),
                        start.types@[target.idx() as int] == KindView::Union(members@),
                        i <= members@.len(),
                        forall|k: int| 0 <= k < found@.len() ==> valid_id(start.types@, #[trigger] found@[k]),
                        found@ == union_property_types(v, members@.take(i as int), name@),
                    decreases members@.len() - i,
                {
                    proof {
                        lemma_union_members_below(start.types@, target);
                        assert(start.types@[target.idx() as int]->Union_0[i as int] == members@[i as int]);
                        assert(members@[i as int].idx() < target.idx());
                        let t = members@.take(i as int + 1);
                        assert(t.drop_last() =~= members@.take(i as int));
                        assert(t.last() == members@[i as int]);
                    }
                    match self.types.kind(members[i]) {
                        Some(TypeKind::Object(properties)) => {
                            let j = Self::find_property(properties, name);
                            proof {
                                let t = members@[i as int].idx() as int;
                                assert(self.types@[t] == KindView::Object(properties_view(properties@)));
                                lemma_parts_below(self.types@, members@[i as int]);
                                lemma_first_property(properties@, name@, j);
                                if let Some(k) = j {
                                    assert(properties_view(properties@)[k as int] == properties@[k as int]@);
                                    assert(self.types@[t]->Object_0[k as int].type_id.idx() < t);
                                }
                            }
                            if let Some(k) = j {
                                found.push(properties[k].type_id);
                            }
                        },
                        _ => {},
                    }
                    i = i + 1;
                }
                assert(members@.take(members@.len() as int) =~= members@);
                if found.len() == 0 {
                    return None;
                }
                self.union_of(found.as_slice())
            },
            _ => None,
        }
    }

    /// The index of the first property named `name`.
    fn find_property(properties: &Vec<ObjectTypeProperty>, name: &str) -> (r: Option<usize>)
        ensures
            match r {
                Some(k) => k < properties@.len() && properties@[k as int].name@ == name@ && forall|m: int|
                    0 <= m < k ==> properties@[m].name@ != name@,
                None => forall|m: int| 0 <= m < properties@.len() ==> properties@[m].name@ != name@,
            },
    {
        let mut i: usize = 0;
        while i < properties.len()
            invariant
                i <= properties@.len(),
                forall|m: int| 0 <= m < i ==> properties@[m].name@ != name@,
            decreases properties@.len() - i,
        {
            if crate::text::str_equal(properties[i].name.as_str(), name) {
                return Some(i);
            }
            i = i + 1;
        }
        None
    }

    /// The type of an expression, if it is supported: literals (kept as
    /// literal types when the contextual target asks for it), `undefined`,
    /// identifiers with a declared type, calls of annotated functions, array
    /// and object literals, and parenthesized expressions.
    fn type_from_expression(&mut self, expr: &Expr, contextual_target: Option<TypeId>) -> (r: Option<TypeId>)
        requires
            old(self).inv(),
            contextual_target matches Some(t) ==> valid_id(old(self).types@, t),
        ensures
            final(self).inv(),
            Self::grown(old(self), final(self)),
            r matches Some(id) ==> valid_id(final(self).types@, id),
            (final(self).types@, r) == expr_type(old(self).ectx(), old(self).types@, *expr, contextual_target),
        decreases expr,
    {
        let ghost c = self.ectx();
        let preserve = match contextual_target {
            Some(target) => self.requires_literal_identity(target),
            None => false,
        };
        let primitives = self.types.primitives();
        match &expr.kind {
            ExprKind::Boolean(value) => if preserve {
                self.intern(TypeKind::BooleanLiteral(*value))
            } else {
                Some(primitives.boolean)
            },
            ExprKind::BigInt(value) => if preserve {
                self.intern(TypeKind::BigIntLiteral(value.clone()))
            } else {
                Some(primitives.bigint)
            },
            ExprKind::Null => Some(primitives.null),
            ExprKind::Number(bits) => if preserve {
                self.intern(TypeKind::NumberLiteral(NumberLiteral::from_bits(*bits)))
            } else {
                Some(primitives.number)
            },
            ExprKind::Negation(operand) => match &operand.kind {
                ExprKind::Number(bits) => if preserve {
                    self.intern(
                        TypeKind::NumberLiteral(NumberLiteral::from_bits(*bits ^ 0x8000_0000_0000_0000u64)),
                    )
                } else {
                    Some(primitives.number)
                },
                _ => None,
            },
            ExprKind::String(value) => if preserve {
                self.intern(TypeKind::StringLiteral(value.clone()))
            } else {
                Some(primitives.string)
            },
            ExprKind::Template => Some(primitives.string),
            ExprKind::Identifier { name, symbol } => {
                if crate::text::str_equal(name.as_str(), "undefined") {
                    Some(primitives.undefined)
                } else {
                    self.symbol_type(*symbol)
                }
            },
            ExprKind::Call(call) => match self.signature_for_call(call) {
                Some(id) => match self.signatures.get(id) {
                    Some(signature) => {
                        proof {
                            assert(signature_valid(self.types@, self.signatures@[signature_index(id)]));
                        }
                        Some(signature.return_type)
                    },
                    None => None,
                },
                None => None,
            },
            ExprKind::Array(elements) => {
                let ghost start = *self;
                let element_target = match contextual_target {
                    Some(target) => self.contextual_array_element_target(target),
                    None => None,
                };
                let ghost after_target = *self;
                let mut ids: Vec<TypeId> = Vec::new();
                let mut i: usize = 0;
                assert(elements@.take(0) =~= Seq::<ArrayElement>::empty());
                while i < elements.len()
                    invariant
                        self.inv(),
                        Self::grown(&start, self),
                        start == *old(self),
                        start.inv(),
                        c == start.ectx(),
                        after_target.types@.is_prefix_of(self.types@),
                        (after_target.types@, element_target) == (match contextual_target {
                            Some(t) => array_element_target(start.types@, t),
                            None => (start.types@, None),
                        }),
                        expr.kind == ExprKind::Array(*elements),
                        element_target matches Some(t) ==> valid_id(self.types@, t),
                        i <= elements@.len(),
                        forall|k: int| 0 <= k < ids@.len() ==> valid_id(self.types@, #[trigger] ids@[k]),
                        element_list(c, after_target.types@, elements@.take(i as int), element_target) == (
                            self.types@,
                            Some(ids@),
                        ),
                    decreases elements@.len() - i,
                {
                    let ghost before = *self;
                    proof {
                        let t = elements@.take(i as int + 1);
                        assert(t.drop_last() =~= elements@.take(i as int));
                        assert(t.last() == elements@[i as int]);
                    }
                    let element = match &elements[i] {
                        ArrayElement::Expression(element) => element,
                        ArrayElement::Other => {
                            proof {
                                lemma_element_list_stops(c, after_target.types@, elements@, element_target, i as int + 1);
                            }
                            return None;
                        },
                    };
                    proof {
                        vstd::std_specs::vec::axiom_vec_index_decreases(*elements, i as int);
                        assert(decreases_to!(expr.kind => expr.kind->Array_0));
                        assert(decreases_to!(elements[i as int] => elements[i as int]->Expression_0));
                        assert(decreases_to!(*expr => *element));
                    }
                    let typed = self.type_from_expression(element, element_target);
                    proof {
                        assert(self.ectx() == c);
                    }
                    match typed {
                        Some(id) => ids.push(id),
                        None => {
                            proof {
                                lemma_element_list_stops(c, after_target.types@, elements@, element_target, i as int + 1);
                            }
                            return None;
                        },
                    }
                    proof {
                        lemma_prefix_trans(start.types@, before.types@, self.types@);
                        lemma_prefix_trans(after_target.types@, before.types@, self.types@);
                    }
                    i = i + 1;
                }
                assert(elements@.take(elements@.len() as int) =~= elements@);
                let element = match self.union_of(ids.as_slice()) {
                    Some(id) => id,
                    None => return None,
                };
                self.intern(TypeKind::Array(element))
            },
            ExprKind::Object(members) => {
                let ghost start = *self;
                let mut properties: Vec<ObjectTypeProperty> = Vec::new();
                let mut i: usize = 0;
                assert(members@.take(0) =~= Seq::<ObjectMember>::empty());
                assert(properties_view(properties@) =~= Seq::<crate::types::PropertyView>::empty());
                while i < members.len()
                    invariant
                        self.inv(),
                        Self::grown(&start, self),
                        start == *old(self),
                        start.inv(),
                        c == start.ectx(),
                        expr.kind == ExprKind::Object(*members),
                        contextual_target matches Some(t) ==> valid_id(start.types@, t),
                        i <= members@.len(),
                        forall|k: int| 0 <= k < properties@.len() ==> valid_id(self.types@, #[trigger] properties@[k].type_id),
                        member_list(c, start.types@, members@.take(i as int), contextual_target) == (
                            self.types@,
                            Some(properties_view(properties@)),
                        ),
                    decreases members@.len() - i,
                {
                    let ghost before = *self;
                    proof {
                        let t = members@.take(i as int + 1);
                        assert(t.drop_last() =~= members@.take(i as int));
                        assert(t.last() == members@[i as int]);
                    }
                    let property = match &members[i] {
                        ObjectMember::Property(property) => property,
                        ObjectMember::Other => {
                            proof {
                                lemma_member_list_stops(c, start.types@, members@, contextual_target, i as int + 1);
                            }
                            return None;
                        },
                    };
                    if property.computed || property.method {
                        proof {
                            lemma_member_list_stops(c, start.types@, members@, contextual_target, i as int + 1);
                        }
                        return None;
                    }
                    let name = match &property.name {
                        Some(name) => name,
                        None => {
                            proof {
                                lemma_member_list_stops(c, start.types@, members@, contextual_target, i as int + 1);
                            }
                            return None;
                        },
                    };
                    let property_target = match contextual_target {
                        Some(target) => self.contextual_object_property_target(target, name.as_str()),
                        None => None,
                    };
                    let ghost middle = *self;
                    proof {
                        vstd::std_specs::vec::axiom_vec_index_decreases(*members, i as int);
                        assert(decreases_to!(expr.kind => expr.kind->Object_0));
                        assert(decreases_to!(members[i as int] => members[i as int]->Property_0));
                        assert(decreases_to!(*property => property.value));
                        assert(decreases_to!(*expr => property.value));
                    }
                    let typed = self.type_from_expression(&property.value, property_target);
                    proof {
                        assert(self.ectx() == c);
                        lemma_prefix_trans(before.types@, middle.types@, self.types@);
                        lemma_prefix_trans(start.types@, before.types@, self.types@);
                    }
                    let type_id = match typed {
                        Some(id) => id,
                        None => {
                            proof {
                                lemma_member_list_stops(c, start.types@, members@, contextual_target, i as int + 1);
                            }
                            return None;
                        },
                    };
                    let ghost before_push = properties_view(properties@);
                    properties.push(ObjectTypeProperty { name: name.clone(), type_id, optional: false });
                    proof {
                        assert(properties_view(properties@) =~= before_push.push(
                            crate::types::PropertyView { name: name@, type_id, optional: false },
                        ));
                    }
                    i = i + 1;
                }
                assert(members@.take(members@.len() as int) =~= members@);
                self.intern(TypeKind::Object(properties))
            },
            ExprKind::Parenthesized(inner) => self.type_from_expression(inner, contextual_target),
            ExprKind::Other => None,
        }
    }
}

/// A piece of literal text.
fn text_piece(s: &str) -> (p: DisplayPiece)
    ensures
        p@ == PieceView::Text(s@),
{
    DisplayPiece::Text(s.to_owned())
}

/// A copy of a list of pieces.
fn clone_pieces(pieces: &Vec<DisplayPiece>) -> (r: Vec<DisplayPiece>)
    ensures
        pieces_view(r@) == pieces_view(pieces@),
{
    let mut r: Vec<DisplayPiece> = Vec::new();
    let mut i: usize = 0;
    while i < pieces.len()
        invariant
            i <= pieces@.len(),
            pieces_view(r@) == pieces_view(pieces@).take(i as int),
        decreases pieces@.len() - i,
    {
        let piece = match &pieces[i] {
            DisplayPiece::Text(text) => DisplayPiece::Text(text.clone()),
            DisplayPiece::Number(number) => DisplayPiece::Number(*number),
        };
        let ghost before = pieces_view(r@);
        r.push(piece);
        assert(pieces_view(r@) =~= before.push(pieces@[i as int]@));
        assert(pieces_view(r@) =~= pieces_view(pieces@).take(i as int + 1));
        i = i + 1;
    }
    assert(pieces_view(pieces@).take(pieces@.len() as int) =~= pieces_view(pieces@));
    r
}

/// Append `more` to `out`.
fn append_pieces(out: &mut Vec<DisplayPiece>, more: Vec<DisplayPiece>)
    ensures
        pieces_view(final(out)@) == pieces_view(old(out)@) + pieces_view(more@),
{
    let mut more = more;
    let ghost m = more@;
    out.append(&mut more);
    assert(pieces_view(out@) =~= pieces_view(old(out)@) + pieces_view(m));
}

/// `prefix`, then `first`, then `middle`, then `second`, then `suffix`.
fn framed_message(
    prefix: &str,
    first: Vec<DisplayPiece>,
    middle: &str,
    second: Vec<DisplayPiece>,
    suffix: &str,
) -> (r: Vec<DisplayPiece>)
    ensures
        pieces_view(r@) == seq![PieceView::Text(prefix@)] + pieces_view(first@) + seq![
            PieceView::Text(middle@),
        ] + pieces_view(second@) + seq![PieceView::Text(suffix@)],
{
    let mut r: Vec<DisplayPiece> = Vec::new();
    r.push(text_piece(prefix));
    assert(pieces_view(r@) =~= seq![PieceView::Text(prefix@)]);
    append_pieces(&mut r, first);
    let ghost a = pieces_view(r@);
    r.push(text_piece(middle));
    assert(pieces_view(r@) =~= a + seq![PieceView::Text(middle@)]);
    append_pieces(&mut r, second);
    let ghost b = pieces_view(r@);
    r.push(text_piece(suffix));
    assert(pieces_view(r@) =~= b + seq![PieceView::Text(suffix@)]);
    r
}

/// The message of an assignability diagnostic.
pub open spec fn not_assignable_message(actual: Seq<PieceView>, expected: Seq<PieceView>) -> Seq<PieceView> {
    seq![PieceView::Text("Type '"@)] + actual + seq![PieceView::Text("' is not assignable to type '"@)]
        + expected + seq![PieceView::Text("'."@)]
}

/// The message of an arity diagnostic.
pub open spec fn arity_message(expected: nat, actual: nat) -> Seq<PieceView> {
    seq![
        PieceView::Text(
            "Expected "@ + crate::text::decimal(expected) + " arguments, but got "@ + crate::text::decimal(actual)
                + "."@,
        ),
    ]
}

impl<'a> Checker<'a> {
    /// How diagnostics render the type `id`.
    fn type_text(&self, id: TypeId) -> (r: Vec<DisplayPiece>)
        requires
            self.types.wf(),
        ensures
            pieces_view(r@) == display_pieces(self.types@, id),
    {
        self.types.display(id).pieces()
    }

    /// How diagnostics name a target type: by the text of its annotation
    /// where that names it, else by rendering the type.
    fn target_text(&self, target: TypeId, annotation: Option<&TypeNode>) -> (r: Vec<DisplayPiece>)
        requires
            self.inv(),
            valid_id(self.types@, target),
        ensures
            pieces_view(r@) == target_pieces(
                self.types@,
                match annotation {
                    Some(a) => Some(*a),
                    None => None,
                },
                target,
            ),
    {
        let named = match annotation {
            Some(annotation) => self.annotation_target_text(annotation, target),
            None => None,
        };
        match named {
            Some(text) => text,
            None => self.type_text(target),
        }
    }

    /// The text that names `target` after the annotation `node`: a plain
    /// type reference by its source text, a parenthesized annotation by its
    /// contents, and an object type literal member by member.
    fn annotation_target_text(&self, node: &TypeNode, target: TypeId) -> (r: Option<Vec<DisplayPiece>>)
        requires
            self.inv(),
            valid_id(self.types@, target),
        ensures
            match r {
                Some(p) => annotation_text_pieces(self.types@, *node, target) == Some(pieces_view(p@)),
                None => annotation_text_pieces(self.types@, *node, target) is None,
            },
        decreases node,
    {
        let ghost v = self.types@;
        match &node.kind {
            TypeNodeKind::Reference { arguments: None, .. } => {
                let r = vec![DisplayPiece::Text(node.text.clone())];
                assert(pieces_view(r@) =~= seq![PieceView::Text(node.text@)]);
                Some(r)
            },
            TypeNodeKind::Parenthesized(inner) => self.annotation_target_text(inner, target),
            TypeNodeKind::TypeLiteral(members) => {
                let properties = match self.types.kind(target) {
                    Some(TypeKind::Object(properties)) => properties,
                    _ => return None,
                };
                let ghost ps = properties_view(properties@);
                proof {
                    lemma_parts_below(self.types@, target);
                    assert(self.types@[target.idx() as int]->Object_0 == properties_view(properties@));
                    assert forall|k: int| 0 <= k < properties@.len() implies valid_id(self.types@, #[trigger] properties@[k].type_id) by {
                        assert(properties_view(properties@)[k] == properties@[k]@);
                        assert(self.types@[target.idx() as int]->Object_0[k].type_id.idx() < target.idx());
                    }
                }
                let mut rendered: Vec<DisplayPiece> = Vec::new();
                rendered.push(text_piece("{ "));
                let mut i: usize = 0;
                assert(members@.take(0) =~= Seq::<TypeMember>::empty());
                assert(pieces_view(rendered@) =~= seq![PieceView::Text("{ "@)] + Seq::<PieceView>::empty());
                while i < members.len()
                    invariant
                        self.inv(),
                        v == self.types@,
                        node.kind == TypeNodeKind::TypeLiteral(*members),
                        valid_id(self.types@, target),
                        self.types@[target.idx() as int] is Object,
                        self.types@[target.idx() as int]->Object_0 == ps,
                        ps == properties_view(properties@),
                        forall|k: int| 0 <= k < properties@.len() ==> valid_id(self.types@, #[trigger] properties@[k].type_id),
                        i <= members@.len(),
                        literal_members_pieces(v, members@.take(i as int), ps) matches Some(body) && pieces_view(rendered@)
                            == seq![PieceView::Text("{ "@)] + body,
                    decreases members@.len() - i,
                {
                    let ghost prefix = pieces_view(rendered@);
                    proof {
                        let t = members@.take(i as int + 1);
                        assert(t.drop_last() =~= members@.take(i as int));
                        assert(t.last() == members@[i as int]);
                    }
                    let member = match &members[i] {
                        TypeMember::Property(member) => member,
                        TypeMember::Other => {
                            proof {
                                lemma_literal_members_stop(v, members@, ps, i as int + 1);
                            }
                            return None;
                        },
                    };
                    let name = match &member.name {
                        Some(name) => name,
                        None => {
                            proof {
                                lemma_literal_members_stop(v, members@, ps, i as int + 1);
                            }
                            return None;
                        },
                    };
                    let found = Self::find_property(properties, name.as_str());
                    proof {
                        lemma_first_property_index(properties@, name@, found);
                    }
                    let k = match found {
                        Some(k) => k,
                        None => {
                            proof {
                                lemma_literal_members_stop(v, members@, ps, i as int + 1);
                            }
                            return None;
                        },
                    };
                    let annotation = match &member.annotation {
                        Some(annotation) => annotation,
                        None => {
                            proof {
                                lemma_literal_members_stop(v, members@, ps, i as int + 1);
                            }
                            return None;
                        },
                    };
                    let property = &properties[k];
                    proof {
                        assert(ps[k as int] == property@);
                        vstd::std_specs::vec::axiom_vec_index_decreases(*members, i as int);
                        assert(decreases_to!(node.kind => node.kind->TypeLiteral_0));
                        assert(decreases_to!(members[i as int] => members[i as int]->Property_0));
                        assert(decreases_to!(*member => member.annotation));
                        assert(decreases_to!(member.annotation => member.annotation->Some_0));
                        assert(decreases_to!(*node => *annotation));
                    }
                    let property_type = match self.annotation_target_text(annotation, property.type_id) {
                        Some(text) => text,
                        None => self.type_text(property.type_id),
                    };
                    let mut head = property.name.clone();
                    let ghost name_text = head@;
                    if property.optional {
                        crate::text::push_char(&mut head, '?');
                    }
                    crate::text::push_str(&mut head, ": ");
                    proof {
                        assert(head@ =~= property@.name + (if property@.optional {
                            seq!['?']
                        } else {
                            Seq::<char>::empty()
                        }) + ": "@);
                    }
                    rendered.push(DisplayPiece::Text(head));
                    let ghost with_head = pieces_view(rendered@);
                    let ghost ty = pieces_view(property_type@);
                    append_pieces(&mut rendered, property_type);
                    let ghost with_type = pieces_view(rendered@);
                    let widen = property.optional && !self.types.includes_undefined(property.type_id);
                    if widen {
                        rendered.push(text_piece(" | undefined"));
                    }
                    let ghost with_tail = pieces_view(rendered@);
                    rendered.push(text_piece("; "));
                    proof {
                        let h = PieceView::Text(
                            property@.name + (if property@.optional {
                                seq!['?']
                            } else {
                                Seq::empty()
                            }) + ": "@,
                        );
                        assert(with_head =~= prefix + seq![h]);
                        let tail = if widen {
                            seq![PieceView::Text(" | undefined"@)]
                        } else {
                            Seq::<PieceView>::empty()
                        };
                        assert(with_tail =~= with_type + tail);
                        assert(pieces_view(rendered@) =~= with_tail + seq![PieceView::Text("; "@)]);
                        let body = literal_members_pieces(v, members@.take(i as int), ps)->Some_0;
                        assert(literal_members_pieces(v, members@.take(i as int + 1), ps) == Some(
                            body + seq![h] + ty + tail + seq![PieceView::Text("; "@)],
                        ));
                        assert(pieces_view(rendered@) =~= seq![PieceView::Text("{ "@)] + (body + seq![h] + ty
                            + tail + seq![PieceView::Text("; "@)]));
                    }
                    i = i + 1;
                }
                assert(members@.take(members@.len() as int) =~= members@);
                let ghost body = pieces_view(rendered@);
                rendered.push(text_piece("}"));
                proof {
                    assert(pieces_view(rendered@) =~= body + seq![PieceView::Text("}"@)]);
                }
                Some(rendered)
            },
            _ => None,
        }
    }

    /// The annotation text that names a target in a variable's assignment
    /// diagnostic: the annotation's own text for a union, object or array
    /// target, else the rendered type.
    fn assignment_target_text(&self, annotation: &TypeNode, target: TypeId) -> (r: Vec<DisplayPiece>)
        requires
            self.types.wf(),
        ensures
            (valid_id(self.types@, target) && (self.types@[target.idx() as int] is Union
                || self.types@[target.idx() as int] is Object || self.types@[target.idx() as int] is Array))
                ==> pieces_view(r@) == seq![PieceView::Text(annotation.text@)],
            !(valid_id(self.types@, target) && (self.types@[target.idx() as int] is Union
                || self.types@[target.idx() as int] is Object || self.types@[target.idx() as int] is Array))
                ==> pieces_view(r@) == display_pieces(self.types@, target),
    {
        match self.types.kind(target) {
            Some(TypeKind::Union(_)) | Some(TypeKind::Object(_)) | Some(TypeKind::Array(_)) => {
                let r = vec![DisplayPiece::Text(annotation.text.clone())];
                assert(pieces_view(r@) =~= seq![PieceView::Text(annotation.text@)]);
                r
            },
            _ => self.type_text(target),
        }
    }

    /// The elaboration of an array assignability failure: for each level of
    /// array nesting, which element type is not assignable to which.
    fn relation_detail(&self, source: TypeId, target: TypeId) -> (r: Vec<DisplayPiece>)
        requires
            self.types.wf(),
        ensures
            pieces_view(r@) == relation_detail_pieces(self.types@, source, target),
        decreases target.idx(),
    {
        let (source_element, target_element) = match (self.types.kind(source), self.types.kind(target)) {
            (Some(TypeKind::Array(s)), Some(TypeKind::Array(t))) => (*s, *t),
            _ => return Vec::new(),
        };
        proof {
            lemma_parts_below(self.types@, target);
        }
        let element = self.diagnostic_source_type(source_element, target_element);
        let detail = self.relation_detail(element, target_element);
        let mut r = framed_message(
            " Type '",
            self.type_text(element),
            "' is not assignable to type '",
            self.type_text(target_element),
            "'.",
        );
        append_pieces(&mut r, detail);
        proof {
            assert(self.types@[target.idx() as int] == KindView::Array(target_element));
            assert(self.types@[source.idx() as int] == KindView::Array(source_element));
        }
        r
    }
}

/// A copy of a list of identities.
fn copy_ids(ids: &Vec<TypeId>) -> (r: Vec<TypeId>)
    ensures
        r@ == ids@,
{
    let mut r: Vec<TypeId> = Vec::new();
    let mut i: usize = 0;
    while i < ids.len()
        invariant
            i <= ids@.len(),
            r@ == ids@.take(i as int),
        decreases ids@.len() - i,
    {
        r.push(ids[i]);
        assert(r@ =~= ids@.take(i as int + 1));
        i = i + 1;
    }
    assert(ids@.take(ids@.len() as int) =~= ids@);
    r
}

/// A copy of a list of properties.
fn copy_properties(properties: &Vec<ObjectTypeProperty>) -> (r: Vec<ObjectTypeProperty>)
    ensures
        properties_view(r@) == properties_view(properties@),
{
    let mut r: Vec<ObjectTypeProperty> = Vec::new();
    let mut i: usize = 0;
    while i < properties.len()
        invariant
            i <= properties@.len(),
            properties_view(r@) == properties_view(properties@).take(i as int),
        decreases properties@.len() - i,
    {
        let p = &properties[i];
        let ghost before = properties_view(r@);
        r.push(ObjectTypeProperty { name: p.name.clone(), type_id: p.type_id, optional: p.optional });
        assert(properties_view(r@) =~= before.push(p@));
        assert(properties_view(r@) =~= properties_view(properties@).take(i as int + 1));
        i = i + 1;
    }
    assert(properties_view(properties@).take(properties@.len() as int) =~= properties_view(properties@));
    r
}

/// A checker diagnostic.
fn check_diagnostic(code: &str, message: Vec<DisplayPiece>, range: TextRange) -> (r: CheckDiagnostic)
    ensures
        r.code@ == code@,
        pieces_view(r.message@) == pieces_view(message@),
        r.range == Some(range),
{
    CheckDiagnostic { code: code.to_owned(), message, range: Some(range) }
}

/// Whether the type at `target` is a kind that `is_kind` accepts, or a
/// union with a member of such a kind.
pub open spec fn target_has(v: Seq<KindView>, target: TypeId, is_kind: spec_fn(KindView) -> bool) -> bool {
    valid_id(v, target) && (is_kind(v[target.idx() as int]) || (v[target.idx() as int] is Union
        && exists|k: int|
        0 <= k < v[target.idx() as int]->Union_0.len() && valid_id(v, #[trigger] v[target.idx() as int]->Union_0[k])
            && is_kind(v[v[target.idx() as int]->Union_0[k].idx() as int])))
}

/// Whether a kind is an object type.
pub open spec fn is_object(k: KindView) -> bool {
    k is Object
}

/// Whether a kind is an array type.
pub open spec fn is_array(k: KindView) -> bool {
    k is Array
}

impl<'a> Checker<'a> {
    /// Whether `source` is assignable to `target`.
    fn assignable(&mut self, source: TypeId, target: TypeId) -> (r: bool)
        requires
            old(self).inv(),
            valid_id(old(self).types@, source),
            valid_id(old(self).types@, target),
        ensures
            final(self).inv(),
            Self::grown(old(self), final(self)),
            final(self).types@ == old(self).types@,
            r == crate::relations::assignable(old(self).types@, source, target),
    {
        let r = self.relations.is_assignable(&self.types, source, target);
        proof {
            assert(self.types@.is_prefix_of(self.types@)) by {
                assert(self.types@.subrange(0, self.types@.len() as int) =~= self.types@);
            }
        }
        r
    }

    /// Whether the type at `target` is, or has as a union member, a kind
    /// the expression's shape needs structural diagnostics for.
    fn target_contains(&self, target: TypeId, object: bool) -> (r: bool)
        requires
            self.types.wf(),
        ensures
            r == target_has(self.types@, target, if object { |k: KindView| is_object(k) } else { |k: KindView| is_array(k) }),
    {
        let ghost is_kind = if object { |k: KindView| is_object(k) } else { |k: KindView| is_array(k) };
        match self.types.kind(target) {
            Some(TypeKind::Object(_)) => object,
            Some(TypeKind::Array(_)) => !object,
            Some(TypeKind::Union(members)) => {
                let ghost v = self.types@;
                let ghost t = target.idx() as int;
                assert(v[t] == KindView::Union(members@));
                let mut i: usize = 0;
                while i < members.len()
                    invariant
                        v == self.types@,
                        valid_id(v, target),
                        v[t] == KindView::Union(members@),
                        t == target.idx(),
                        is_kind == (if object { |k: KindView| is_object(k) } else { |k: KindView| is_array(k) }),
                        i <= members@.len(),
                        forall|k: int| 0 <= k < i ==> !(valid_id(v, #[trigger] members@[k]) && is_kind(v[members@[k].idx() as int])),
                    decreases members@.len() - i,
                {
                    let hit = match self.types.kind(members[i]) {
                        Some(TypeKind::Object(_)) => object,
                        Some(TypeKind::Array(_)) => !object,
                        _ => false,
                    };
                    if hit {
                        assert(v[t]->Union_0[i as int] == members@[i as int]);
                        return true;
                    }
                    i = i + 1;
                }
                assert forall|k: int| 0 <= k < v[t]->Union_0.len() implies !(valid_id(v, #[trigger] v[t]->Union_0[k])
                    && is_kind(v[v[t]->Union_0[k].idx() as int])) by {
                    assert(v[t]->Union_0[k] == members@[k]);
                }
                false
            },
            _ => false,
        }
    }

    /// Whether checking `expr` against `target` goes through structural
    /// diagnostics: an object literal against a target with an object type,
    /// an array literal against one with an array type, seen through
    /// parentheses.
    fn needs_structural_diagnostics(&self, expr: &Expr, target: TypeId) -> (r: bool)
        requires
            self.types.wf(),
        ensures
            r == needs_structural(self.types@, *expr, target),
        decreases expr,
    {
        match &expr.kind {
            ExprKind::Object(_) => self.target_contains(target, true),
            ExprKind::Array(_) => self.target_contains(target, false),
            ExprKind::Parenthesized(inner) => self.needs_structural_diagnostics(inner, target),
            _ => false,
        }
    }

    /// The TS2322 diagnostic for `expr` when its type is not assignable to
    /// `target`, reported at `anchor` or else at the expression.
    fn type_mismatch_diagnostic(
        &mut self,
        expr: &Expr,
        target: TypeId,
        annotation: Option<&TypeNode>,
        anchor: Option<TextRange>,
    ) -> (r: Option<CheckDiagnostic>)
        requires
            old(self).inv(),
            valid_id(old(self).types@, target),
        ensures
            final(self).inv(),
            Self::grown(old(self), final(self)),
            r matches Some(d) ==> d.code@ == "TS2322"@ && d.range == Some(
                match anchor {
                    Some(a) => a,
                    None => expr.span,
                },
            ),
            ({
                let (v1, m) = mismatch_facts(old(self).ectx(), old(self).types@, *expr, target, opt_node(annotation), anchor);
                &&& final(self).types@ == v1
                &&& match r {
                    Some(d) => m == Some(facts(d)),
                    None => m is None,
                }
            }),
    {
        let actual = match self.type_from_expression(expr, Some(target)) {
            Some(actual) => actual,
            None => return None,
        };
        let ghost middle = *self;
        if self.assignable(actual, target) {
            return None;
        }
        let actual = self.diagnostic_source_type(actual, target);
        let actual_text = self.type_text(actual);
        let expected = self.target_text(target, annotation);
        let range = match anchor {
            Some(anchor) => anchor,
            None => expr.span,
        };
        let message = framed_message("Type '", actual_text, "' is not assignable to type '", expected, "'.");
        proof {
            lemma_prefix_trans(old(self).types@, middle.types@, self.types@);
        }
        Some(check_diagnostic("TS2322", message, range))
    }
}

/// Whether the type at `target` in `v` is a union.
pub open spec fn is_union_at(v: Seq<KindView>, target: TypeId) -> bool {
    valid_id(v, target) && v[target.idx() as int] is Union
}

impl<'a> Checker<'a> {
    /// The members of the object type that an annotation spells out, seen
    /// through parentheses, interfaces and aliases, following at most
    /// `remaining` names.
    fn object_annotation_members_from<'b>(&self, annotation: &'b TypeNode, remaining: usize) -> (r: Option<&'b Vec<TypeMember>>)
        where 'a: 'b
        ensures
            match r {
                Some(ms) => annotation_members(self.decls(), *annotation, remaining as nat) == Some(*ms),
                None => annotation_members(self.decls(), *annotation, remaining as nat) is None,
            },
        decreases remaining, annotation,
    {
        match &annotation.kind {
            TypeNodeKind::TypeLiteral(members) => Some(members),
            TypeNodeKind::Reference { name, arguments: None } => {
                let name = match name {
                    Some(name) => name,
                    None => return None,
                };
                if remaining == 0 {
                    return None;
                }
                if let Some(members) = self.lookup_interface(name.as_str()) {
                    return Some(members);
                }
                match self.lookup_alias(name.as_str()) {
                    Some(alias) => self.object_annotation_members_from(alias, remaining - 1),
                    None => None,
                }
            },
            TypeNodeKind::Parenthesized(inner) => self.object_annotation_members_from(inner, remaining),
            _ => None,
        }
    }

    /// The annotation of the first property named `name` that has one, in
    /// the object type an annotation spells out.
    fn object_property_annotation<'b>(&self, annotation: &'b TypeNode, name: &str) -> (r: Option<&'b TypeNode>)
        where 'a: 'b
        ensures
            match r {
                Some(a) => property_annotation(self.decls(), *annotation, name@) == Some(*a),
                None => property_annotation(self.decls(), *annotation, name@) is None,
            },
    {
        let remaining = self.aliases.len().saturating_add(self.interfaces.len()).saturating_add(1);
        let members = match self.object_annotation_members_from(annotation, remaining) {
            Some(members) => members,
            None => return None,
        };
        let mut i: usize = 0;
        assert(members@.skip(0) =~= members@);
        assert(remaining as nat == saturating_sum(saturating_sum(self.decls().aliases.len(), self.decls().interfaces.len()), 1));
        while i < members.len()
            invariant
                i <= members@.len(),
                annotation_members(self.decls(), *annotation, remaining as nat) == Some(*members),
                remaining as nat == saturating_sum(saturating_sum(self.decls().aliases.len(), self.decls().interfaces.len()), 1),
                first_annotated(members@, name@) == first_annotated(members@.skip(i as int), name@),
            decreases members@.len() - i,
        {
            proof {
                let rest = members@.skip(i as int);
                assert(rest.drop_first() =~= members@.skip(i as int + 1));
                assert(rest[0] == members@[i as int]);
            }
            if let TypeMember::Property(property) = &members[i] {
                if let Some(property_name) = &property.name {
                    if crate::text::str_equal(property_name.as_str(), name) {
                        if let Some(annotation) = &property.annotation {
                            return Some(annotation);
                        }
                    }
                }
            }
            i = i + 1;
        }
        proof {
            assert(members@.skip(members@.len() as int) =~= Seq::<TypeMember>::empty());
        }
        None
    }

    /// An annotation with parentheses and aliases seen through, following
    /// at most `remaining` aliases; a reference to anything but an alias
    /// resolves to nothing.
    fn resolve_annotation_from<'b>(&self, annotation: &'b TypeNode, remaining: usize) -> (r: Option<&'b TypeNode>)
        where 'a: 'b
        ensures
            match r {
                Some(a) => resolved_annotation(self.decls(), *annotation, remaining as nat) == Some(*a),
                None => resolved_annotation(self.decls(), *annotation, remaining as nat) is None,
            },
        decreases remaining, annotation,
    {
        match &annotation.kind {
            TypeNodeKind::Reference { name, arguments: None } => {
                let name = match name {
                    Some(name) => name,
                    None => return Some(annotation),
                };
                if remaining == 0 {
                    return None;
                }
                match self.lookup_alias(name.as_str()) {
                    Some(alias) => self.resolve_annotation_from(alias, remaining - 1),
                    None => None,
                }
            },
            TypeNodeKind::Parenthesized(inner) => self.resolve_annotation_from(inner, remaining),
            _ => Some(annotation),
        }
    }

    /// The element annotation of an array annotation, seen through aliases.
    fn array_element_annotation<'b>(&self, annotation: &'b TypeNode) -> (r: Option<&'b TypeNode>)
        where 'a: 'b
        ensures
            match r {
                Some(a) => element_annotation_of(self.decls(), *annotation) == Some(*a),
                None => element_annotation_of(self.decls(), *annotation) is None,
            },
    {
        let resolved = match self.resolve_annotation_from(annotation, self.aliases.len()) {
            Some(resolved) => resolved,
            None => return None,
        };
        match &resolved.kind {
            TypeNodeKind::Array(element) => Some(element),
            _ => Self::generic_array_element(resolved),
        }
    }

    /// The diagnostics of checking `expr` against `target` structurally:
    /// through union members, object properties and array elements, so that
    /// each one points at the syntax it concerns. `None` when the shape is
    /// not supported.
    fn structural_diagnostics<'b>(
        &mut self,
        expr: &Expr,
        target: TypeId,
        annotation: Option<&'b TypeNode>,
        anchor: Option<TextRange>,
    ) -> (r: Option<Vec<CheckDiagnostic>>)
        where 'a: 'b
        requires
            old(self).inv(),
            valid_id(old(self).types@, target),
        ensures
            final(self).inv(),
            Self::grown(old(self), final(self)),
            (final(self).types@, facts_opt(r)) == structural_facts(
                old(self).ectx(),
                old(self).decls(),
                old(self).types@,
                *expr,
                target,
                opt_node(annotation),
                anchor,
            ),
        decreases expr, if is_union_at(old(self).types@, target) { 5int } else { 1int },
    {
        if let ExprKind::Parenthesized(inner) = &expr.kind {
            return self.structural_diagnostics(inner, target, annotation, anchor);
        }
        let members = match self.types.kind(target) {
            Some(TypeKind::Union(members)) => Some(copy_ids(members)),
            _ => None,
        };
        if let Some(members) = members {
            proof {
                lemma_union_members_below(self.types@, target);
                assert forall|k: int| 0 <= k < members@.len() implies valid_id(self.types@, #[trigger] members@[k]) by {
                    assert(self.types@[target.idx() as int]->Union_0[k] == members@[k]);
                }
            }
            return self.union_structural_diagnostics(expr, target, &members, annotation, anchor);
        }
        let object = match (&expr.kind, self.types.kind(target)) {
            (ExprKind::Object(_), Some(TypeKind::Object(properties))) => Some(copy_properties(properties)),
            _ => None,
        };
        if let Some(properties) = object {
            proof {
                lemma_parts_below(self.types@, target);
                assert forall|k: int| 0 <= k < properties@.len() implies valid_id(self.types@, #[trigger] properties@[k].type_id) by {
                    assert(properties_view(properties@)[k] == properties@[k]@);
                    assert(self.types@[target.idx() as int]->Object_0[k].type_id.idx() < target.idx());
                }
            }
            return self.object_structural_diagnostics(expr, target, &properties, annotation, anchor);
        }
        let element = match (&expr.kind, self.types.kind(target)) {
            (ExprKind::Array(_), Some(TypeKind::Array(element))) => Some(*element),
            _ => None,
        };
        if let Some(element) = element {
            proof {
                lemma_parts_below(self.types@, target);
            }
            return self.array_structural_diagnostics(expr, element, annotation);
        }
        let mut diagnostics: Vec<CheckDiagnostic> = Vec::new();
        let found = self.type_mismatch_diagnostic(expr, target, annotation, anchor);
        if let Some(diagnostic) = found {
            diagnostics.push(diagnostic);
        }
        proof {
            assert(facts_of(diagnostics@) =~= optional_facts(
                mismatch_facts(old(self).ectx(), old(self).types@, *expr, target, opt_node(annotation), anchor).1,
            ));
        }
        Some(diagnostics)
    }

    /// Structural diagnostics against a union: property mismatches against
    /// the union's object members first, then the candidate member with
    /// the fewest diagnostics, else a plain mismatch.
    fn union_structural_diagnostics<'b>(
        &mut self,
        expr: &Expr,
        target: TypeId,
        members: &Vec<TypeId>,
        annotation: Option<&'b TypeNode>,
        anchor: Option<TextRange>,
    ) -> (r: Option<Vec<CheckDiagnostic>>)
        where 'a: 'b
        requires
            old(self).inv(),
            valid_id(old(self).types@, target),
            is_union_at(old(self).types@, target),
            members@ == old(self).types@[target.idx() as int]->Union_0,
            forall|k: int| 0 <= k < members@.len() ==> valid_id(old(self).types@, #[trigger] members@[k]),
            !(expr.kind is Parenthesized),
        ensures
            final(self).inv(),
            Self::grown(old(self), final(self)),
            (final(self).types@, facts_opt(r)) == union_structural_facts(
                old(self).ectx(),
                old(self).decls(),
                old(self).types@,
                *expr,
                target,
                opt_node(annotation),
                anchor,
            ),
        decreases expr, 4int,
    {
        let ghost start = *self;
        let ghost c = self.ectx();
        let ghost d = self.decls();
        proof {
            lemma_union_structural_unfold(c, d, start.types@, *expr, target, opt_node(annotation), anchor);
        }
        if let ExprKind::Object(_) = &expr.kind {
            let diagnostics = match self.union_object_property_diagnostics(expr, target) {
                Some(diagnostics) => diagnostics,
                None => return None,
            };
            if diagnostics.len() > 0 {
                proof {
                    let ms = expr.kind->Object_0@;
                    let (v1, out) = union_property_checks(c, start.types@, ms, target, ms.len());
                    assert(out == Some(facts_of(diagnostics@)));
                    assert(facts_of(diagnostics@).len() > 0);
                    assert(v1 == self.types@);
                }
                return Some(diagnostics);
            }
        }
        proof {
            assert(self.types@[target.idx() as int] == start.types@[target.idx() as int]);
            assert forall|k: int| 0 <= k < members@.len() implies valid_id(self.types@, #[trigger] members@[k]) by {}
        }
        self.union_candidate_diagnostics(expr, target, members, annotation, anchor)
    }

    /// The members among `members` that are objects (if `want_object`) or
    /// arrays (if `want_array`), in order.
    fn union_candidates(&self, members: &Vec<TypeId>, want_object: bool, want_array: bool) -> (r: Vec<TypeId>)
        requires
            self.inv(),
            forall|k: int| 0 <= k < members@.len() ==> valid_id(self.types@, #[trigger] members@[k]),
        ensures
            r@ == candidate_members(self.types@, members@, want_object, want_array),
            forall|k: int| 0 <= k < r@.len() ==> valid_id(self.types@, #[trigger] r@[k]) && !is_union_at(self.types@, r@[k]),
    {
        let mut candidates: Vec<TypeId> = Vec::new();
        let mut i: usize = 0;
        assert(members@.take(0) =~= Seq::<TypeId>::empty());
        while i < members.len()
            invariant
                self.inv(),
                forall|k: int| 0 <= k < members@.len() ==> valid_id(self.types@, #[trigger] members@[k]),
                i <= members@.len(),
                forall|k: int| 0 <= k < candidates@.len() ==> valid_id(self.types@, #[trigger] candidates@[k])
                    && !is_union_at(self.types@, candidates@[k]),
                candidates@ == candidate_members(self.types@, members@.take(i as int), want_object, want_array),
            decreases members@.len() - i,
        {
            proof {
                let t = members@.take(i as int + 1);
                assert(t.drop_last() =~= members@.take(i as int));
                assert(t.last() == members@[i as int]);
                assert(valid_id(self.types@, members@[i as int]));
            }
            let keep = match self.types.kind(members[i]) {
                Some(TypeKind::Object(_)) => want_object,
                Some(TypeKind::Array(_)) => want_array,
                _ => false,
            };
            if keep {
                candidates.push(members[i]);
            }
            i = i + 1;
        }
        assert(members@.take(members@.len() as int) =~= members@);
        candidates
    }

    /// Structural diagnostics against the union members of the literal's
    /// shape: none once one accepts it, else those of the member with the
    /// fewest, else a plain mismatch against the union.
    #[verifier::rlimit(60)]
    fn union_candidate_diagnostics<'b>(
        &mut self,
        expr: &Expr,
        target: TypeId,
        members: &Vec<TypeId>,
        annotation: Option<&'b TypeNode>,
        anchor: Option<TextRange>,
    ) -> (r: Option<Vec<CheckDiagnostic>>)
        where 'a: 'b
        requires
            old(self).inv(),
            valid_id(old(self).types@, target),
            is_union_at(old(self).types@, target),
            members@ == old(self).types@[target.idx() as int]->Union_0,
            forall|k: int| 0 <= k < members@.len() ==> valid_id(old(self).types@, #[trigger] members@[k]),
            !(expr.kind is Parenthesized),
        ensures
            final(self).inv(),
            Self::grown(old(self), final(self)),
            (final(self).types@, facts_opt(r)) == union_candidate_facts(
                old(self).ectx(),
                old(self).decls(),
                old(self).types@,
                *expr,
                target,
                opt_node(annotation),
                anchor,
            ),
        decreases expr, 3int,
    {
        let ghost start = *self;
        let ghost c = self.ectx();
        let ghost d = self.decls();
        proof {
            lemma_union_structural_unfold(c, d, start.types@, *expr, target, opt_node(annotation), anchor);
        }
        let want_object = match &expr.kind {
            ExprKind::Object(_) => true,
            _ => false,
        };
        let want_array = match &expr.kind {
            ExprKind::Array(_) => true,
            _ => false,
        };
        let candidates = self.union_candidates(members, want_object, want_array);
        let ghost cands = candidates@;
        let mut best: Option<Vec<CheckDiagnostic>> = None;
        let mut j: usize = 0;
        while j < candidates.len()
            invariant
                self.inv(),
                Self::grown(&start, self),
                start == *old(self),
                c == start.ectx(),
                d == start.decls(),
                cands == candidates@,
                cands == candidate_members(
                    start.types@,
                    start.types@[target.idx() as int]->Union_0,
                    expr.kind is Object,
                    expr.kind is Array,
                ),
                valid_id(self.types@, target),
                forall|k: int| 0 <= k < candidates@.len() ==> valid_id(start.types@, #[trigger] candidates@[k])
                    && !is_union_at(start.types@, candidates@[k]),
                j <= candidates@.len(),
                candidate_checks(c, d, start.types@, *expr, cands, anchor, j as nat) == (
                    self.types@,
                    facts_opt(best),
                    None::<Seq<DiagnosticFacts>>,
                ),
            decreases candidates@.len() - j,
        {
            let ghost before = *self;
            let candidate = candidates[j];
            proof {
                assert(valid_id(self.types@, candidate));
                assert(self.types@[candidate.idx() as int] == start.types@[candidate.idx() as int]);
                assert(!is_union_at(self.types@, candidate));
            }
            let found = self.structural_diagnostics(expr, candidate, None, anchor);
            proof {
                lemma_prefix_trans(start.types@, before.types@, self.types@);
                assert(self.ectx() == c);
                assert(self.decls() == d);
            }
            if let Some(diagnostics) = found {
                if diagnostics.len() == 0 {
                    proof {
                        assert(facts_of(diagnostics@).len() == 0);
                        assert(candidate_checks(c, d, start.types@, *expr, cands, anchor, j as nat + 1) == (
                            self.types@,
                            facts_opt(best),
                            Some(facts_of(diagnostics@)),
                        ));
                        lemma_candidate_checks_done(c, d, start.types@, *expr, cands, anchor, j as nat + 1, cands.len());
                        lemma_union_structural_unfold(c, d, start.types@, *expr, target, opt_node(annotation), anchor);
                    }
                    return Some(diagnostics);
                }
                let better = match &best {
                    Some(current) => diagnostics.len() < current.len(),
                    None => true,
                };
                if better {
                    best = Some(diagnostics);
                }
            }
            j = j + 1;
        }
        match best {
            Some(best) => Some(best),
            None => {
                let mut diagnostics: Vec<CheckDiagnostic> = Vec::new();
                let ghost before = *self;
                let found = self.type_mismatch_diagnostic(expr, target, annotation, anchor);
                if let Some(diagnostic) = found {
                    diagnostics.push(diagnostic);
                }
                proof {
                    assert(facts_of(diagnostics@) =~= optional_facts(
                        mismatch_facts(c, before.types@, *expr, target, opt_node(annotation), anchor).1,
                    ));
                }
                Some(diagnostics)
            },
        }
    }

    /// Mismatches of an object literal's property values against the
    /// contextual property types of a union target, at each property key.
    #[verifier::rlimit(40)]
    fn union_object_property_diagnostics(&mut self, expr: &Expr, target: TypeId) -> (r: Option<Vec<CheckDiagnostic>>)
        requires
            old(self).inv(),
            valid_id(old(self).types@, target),
        ensures
            final(self).inv(),
            Self::grown(old(self), final(self)),
            expr.kind is Object ==> ({
                let ms = expr.kind->Object_0@;
                let (v1, out) = union_property_checks(old(self).ectx(), old(self).types@, ms, target, ms.len());
                &&& final(self).types@ == v1
                &&& match r {
                    Some(ds) => out == Some(facts_of(ds@)),
                    None => out is None,
                }
            }),
    {
        let members = match &expr.kind {
            ExprKind::Object(members) => members,
            _ => return Some(Vec::new()),
        };
        let ghost start = *self;
        let ghost c = self.ectx();
        let mut diagnostics: Vec<CheckDiagnostic> = Vec::new();
        let mut i: usize = 0;
        assert(facts_of(diagnostics@) =~= Seq::<DiagnosticFacts>::empty());
        while i < members.len()
            invariant
                self.inv(),
                Self::grown(&start, self),
                start == *old(self),
                c == start.ectx(),
                expr.kind == ExprKind::Object(*members),
                valid_id(self.types@, target),
                i <= members@.len(),
                union_property_checks(c, start.types@, members@, target, i as nat) == (
                    self.types@,
                    Some(facts_of(diagnostics@)),
                ),
            decreases members@.len() - i,
        {
            let ghost before = *self;
            let property = match &members[i] {
                ObjectMember::Property(property) => property,
                ObjectMember::Other => {
                    proof {
                        lemma_union_property_checks_stop(c, start.types@, members@, target, i as nat + 1, members@.len());
                    }
                    return None;
                },
            };
            let name = match &property.name {
                Some(name) => name,
                None => {
                    proof {
                        lemma_union_property_checks_stop(c, start.types@, members@, target, i as nat + 1, members@.len());
                    }
                    return None;
                },
            };
            let property_target = self.contextual_object_property_target(target, name.as_str());
            let ghost middle = *self;
            let ghost before_diagnostics = facts_of(diagnostics@);
            proof {
                assert(members@[i as int] == ObjectMember::Property(*property));
                assert(union_property_checks(c, start.types@, members@, target, i as nat + 1) == match property_target {
                    None => (middle.types@, Some(before_diagnostics)),
                    Some(t) => {
                        let (v3, m) = mismatch_facts(c, middle.types@, property.value, t, None, Some(property.key_span));
                        (v3, Some(before_diagnostics + optional_facts(m)))
                    },
                });
            }
            if let Some(property_target) = property_target {
                let found = self.type_mismatch_diagnostic(&property.value, property_target, None, Some(property.key_span));
                if let Some(diagnostic) = found {
                    diagnostics.push(diagnostic);
                }
                proof {
                    assert(facts_of(diagnostics@) =~= before_diagnostics + optional_facts(
                        mismatch_facts(c, middle.types@, property.value, property_target, None, Some(property.key_span)).1,
                    ));
                }
            }
            proof {
                lemma_prefix_trans(before.types@, middle.types@, self.types@);
                lemma_prefix_trans(start.types@, before.types@, self.types@);
            }
            i = i + 1;
        }
        Some(diagnostics)
    }

    /// Structural diagnostics of an object literal against an object type:
    /// missing required properties at the anchor, then each property's
    /// value checked against its declared type at its key, or an excess
    /// property reported at its key.
    #[verifier::rlimit(60)]
    fn object_structural_diagnostics<'b>(
        &mut self,
        expr: &Expr,
        target: TypeId,
        properties: &Vec<ObjectTypeProperty>,
        annotation: Option<&'b TypeNode>,
        anchor: Option<TextRange>,
    ) -> (r: Option<Vec<CheckDiagnostic>>)
        where 'a: 'b
        requires
            old(self).inv(),
            valid_id(old(self).types@, target),
            forall|k: int| 0 <= k < properties@.len() ==> valid_id(old(self).types@, #[trigger] properties@[k].type_id),
        ensures
            final(self).inv(),
            Self::grown(old(self), final(self)),
            (final(self).types@, facts_opt(r)) == object_structural_facts(
                old(self).ectx(),
                old(self).decls(),
                old(self).types@,
                *expr,
                target,
                properties_view(properties@),
                opt_node(annotation),
                anchor,
            ),
        decreases expr, 0int,
    {
        let ghost ps = properties_view(properties@);
        let ghost c = self.ectx();
        let ghost d = self.decls();
        let members = match &expr.kind {
            ExprKind::Object(members) => members,
            _ => return None,
        };
        if !plain_properties(members) {
            return None;
        }
        proof {
            lemma_object_structural_unfold(c, d, self.types@, *expr, target, ps, opt_node(annotation), anchor);
        }
        let ghost start = *self;
        let mut diagnostics: Vec<CheckDiagnostic> = Vec::new();
        let missing = missing_properties(properties, members);
        let ghost missing_view = missing@.map_values(|k: usize| k as int);
        let range = match anchor {
            Some(anchor) => anchor,
            None => expr.span,
        };
        if missing.len() > 0 {
            let actual = match self.type_from_expression(expr, Some(target)) {
                Some(actual) => actual,
                None => return None,
            };
            let actual_text = self.type_text(actual);
            let expected = self.target_text(target, annotation);
            let ghost expected_view = pieces_view(expected@);
            let ghost actual_view = pieces_view(actual_text@);
            let diagnostic = if missing.len() == 1 {
                let mut message = vec![text_piece("Property '")];
                message.push(DisplayPiece::Text(properties[missing[0]].name.clone()));
                message.push(text_piece("' is missing in type '"));
                let ghost m1 = pieces_view(message@);
                append_pieces(&mut message, actual_text);
                message.push(text_piece("' but required in type '"));
                let ghost m2 = pieces_view(message@);
                append_pieces(&mut message, expected);
                message.push(text_piece("'."));
                proof {
                    assert(missing_view[0] == missing@[0] as int);
                    assert(ps[missing@[0] as int] == properties@[missing@[0] as int]@);
                    assert(m1 =~= seq![PieceView::Text("Property '"@), PieceView::Text(ps[missing_view[0]].name), PieceView::Text("' is missing in type '"@)]);
                    assert(m2 =~= m1 + actual_view + seq![PieceView::Text("' but required in type '"@)]);
                    assert(pieces_view(message@) =~= m2 + expected_view + seq![PieceView::Text("'."@)]);
                }
                let single = check_diagnostic("TS2741", message, range);
                proof {
                    assert(missing_view.len() == 1);
                    assert(facts(single) == missing_facts(self.types@, ps, missing_view, actual, expected_view, range));
                }
                single
            } else {
                let mut names = String::new();
                let mut m: usize = 0;
                assert(missing_view.take(0) =~= Seq::<int>::empty());
                while m < missing.len()
                    invariant
                        m <= missing@.len(),
                        missing_view == missing@.map_values(|k: usize| k as int),
                        ps == properties_view(properties@),
                        forall|q: int| 0 <= q < missing@.len() ==> #[trigger] missing@[q] < properties@.len(),
                        names@ == joined_names(ps, missing_view.take(m as int)),
                    decreases missing@.len() - m,
                {
                    proof {
                        let t = missing_view.take(m as int + 1);
                        assert(t.drop_last() =~= missing_view.take(m as int));
                        assert(t.last() == missing@[m as int] as int);
                        assert(ps[missing@[m as int] as int] == properties@[missing@[m as int] as int]@);
                    }
                    let ghost before_names = names@;
                    if m > 0 {
                        crate::text::push_str(&mut names, ", ");
                    }
                    crate::text::push_str(&mut names, properties[missing[m]].name.as_str());
                    proof {
                        if m > 0 {
                            assert(names@ =~= before_names + ", "@ + properties@[missing@[m as int] as int].name@);
                        } else {
                            assert(names@ =~= before_names + Seq::<char>::empty() + properties@[missing@[m as int] as int].name@);
                        }
                    }
                    m = m + 1;
                }
                assert(missing_view.take(missing_view.len() as int) =~= missing_view);
                let mut message = framed_message(
                    "Type '",
                    actual_text,
                    "' is missing the following properties from type '",
                    expected,
                    "': ",
                );
                let ghost framed = pieces_view(message@);
                message.push(DisplayPiece::Text(names));
                proof {
                    assert(pieces_view(message@) =~= framed + seq![PieceView::Text(joined_names(ps, missing_view))]);
                    assert(framed =~= seq![PieceView::Text("Type '"@)] + actual_view + seq![
                        PieceView::Text("' is missing the following properties from type '"@),
                    ] + expected_view + seq![PieceView::Text("': "@)]);
                }
                proof {
                    assert(pieces_view(message@) =~= seq![PieceView::Text("Type '"@)] + actual_view + seq![
                        PieceView::Text("' is missing the following properties from type '"@),
                    ] + expected_view + seq![PieceView::Text("': "@), PieceView::Text(joined_names(ps, missing_view))]);
                }
                let several = check_diagnostic("TS2739", message, range);
                proof {
                    assert(missing_view.len() != 1);
                    assert(facts(several) == missing_facts(self.types@, ps, missing_view, actual, expected_view, range));
                }
                several
            };
            diagnostics.push(diagnostic);
            proof {
                assert(facts_of(diagnostics@) =~= seq![missing_facts(self.types@, ps, missing_view, actual, expected_view, range)]);
            }
        }
        let ghost after_missing = *self;
        let ghost head = facts_of(diagnostics@);
        proof {
            assert(missing_head(c, start.types@, *expr, target, ps, members@, opt_node(annotation), anchor) == (
                after_missing.types@,
                Some(head),
            ));
            assert(forall|q: int| 0 <= q < properties@.len() ==> valid_id(self.types@, #[trigger] properties@[q].type_id));
            assert(members@.take(0) =~= Seq::<ObjectMember>::empty());
            assert(facts_of(diagnostics@) =~= head + Seq::<DiagnosticFacts>::empty());
        }
        let mut i: usize = 0;
        while i < members.len()
            invariant
                self.inv(),
                Self::grown(&start, self),
                start == *old(self),
                c == start.ectx(),
                d == start.decls(),
                ps == properties_view(properties@),
                expr.kind == ExprKind::Object(*members),
                valid_id(self.types@, target),
                forall|q: int| 0 <= q < properties@.len() ==> valid_id(self.types@, #[trigger] properties@[q].type_id),
                i <= members@.len(),
                member_checks(c, d, after_missing.types@, members@, target, ps, opt_node(annotation), i as nat).0
                    == self.types@,
                member_checks(c, d, after_missing.types@, members@, target, ps, opt_node(annotation), i as nat).1
                    matches Some(ds) && facts_of(diagnostics@) == head + ds,
                object_structural_facts(c, d, start.types@, *expr, target, ps, opt_node(annotation), anchor) == ({
                    let (v2, rest) = member_checks(c, d, after_missing.types@, members@, target, ps, opt_node(annotation), members@.len());
                    match rest {
                        None => (v2, None),
                        Some(r) => (v2, Some(head + r)),
                    }
                }),
            decreases members@.len() - i,
        {
            let ghost before = *self;
            let ghost before_facts = facts_of(diagnostics@);
            let source = match &members[i] {
                ObjectMember::Property(source) => source,
                ObjectMember::Other => {
                    proof {
                        lemma_member_checks_stop(c, d, after_missing.types@, members@, target, ps, opt_node(annotation), i as nat + 1, members@.len());
                    }
                    return None;
                },
            };
            let name = match &source.name {
                Some(name) => name,
                None => {
                    proof {
                        lemma_member_checks_stop(c, d, after_missing.types@, members@, target, ps, opt_node(annotation), i as nat + 1, members@.len());
                    }
                    return None;
                },
            };
            let found = Self::find_property(properties, name.as_str());
            proof {
                lemma_first_property_index(properties@, name@, found);
                assert(members@[i as int] == ObjectMember::Property(*source));
            }
            match found {
                Some(p) => {
                    let property_annotation = match annotation {
                        Some(annotation) => self.object_property_annotation(annotation, properties[p].name.as_str()),
                        None => None,
                    };
                    proof {
                        assert(ps[p as int] == properties@[p as int]@);
                        vstd::std_specs::vec::axiom_vec_index_decreases(*members, i as int);
                        assert(decreases_to!(expr.kind => expr.kind->Object_0));
                        assert(decreases_to!(members[i as int] => members[i as int]->Property_0));
                        assert(decreases_to!(*source => source.value));
                        assert(decreases_to!(*expr => source.value));
                    }
                    let nested = self.structural_diagnostics(&source.value, properties[p].type_id, property_annotation, Some(source.key_span));
                    proof {
                        assert(self.ectx() == c);
                        assert(self.decls() == d);
                    }
                    match nested {
                        Some(mut nested) => {
                            let ghost nested_facts = facts_of(nested@);
                            diagnostics.append(&mut nested);
                            proof {
                                assert(facts_of(diagnostics@) =~= before_facts + nested_facts);
                            }
                        },
                        None => {
                            proof {
                                lemma_member_checks_stop(c, d, after_missing.types@, members@, target, ps, opt_node(annotation), i as nat + 1, members@.len());
                            }
                            return None;
                        },
                    }
                },
                None => {
                    let expected = self.target_text(target, annotation);
                    let mut prefix = "Object literal may only specify known properties, and '".to_owned();
                    crate::text::push_str(&mut prefix, name.as_str());
                    crate::text::push_str(&mut prefix, "' does not exist in type '");
                    let ghost prefix_text = prefix@;
                    let mut message: Vec<DisplayPiece> = Vec::new();
                    message.push(DisplayPiece::Text(prefix));
                    proof {
                        assert(pieces_view(message@) =~= seq![PieceView::Text(prefix_text)]);
                    }
                    let ghost expected_view = pieces_view(expected@);
                    append_pieces(&mut message, expected);
                    let ghost framed = pieces_view(message@);
                    message.push(text_piece("'."));
                    proof {
                        assert(pieces_view(message@) =~= framed + seq![PieceView::Text("'."@)]);
                        assert(pieces_view(message@) =~= seq![PieceView::Text(prefix_text)] + expected_view + seq![PieceView::Text("'."@)]);
                    }
                    let excess = check_diagnostic("TS2353", message, source.key_span);
                    let ghost listed = diagnostics@;
                    diagnostics.push(excess);
                    proof {
                        assert(diagnostics@ == listed.push(excess));
                        assert(facts_of(listed) == before_facts);
                        assert(facts_of(diagnostics@) =~= before_facts.push(facts(excess)));
                    }
                },
            }
            proof {
                lemma_prefix_trans(start.types@, before.types@, self.types@);
            }
            i = i + 1;
        }
        Some(diagnostics)
    }

    /// Structural diagnostics of an array literal against an array type:
    /// each element checked against the element type.
    fn array_structural_diagnostics<'b>(
        &mut self,
        expr: &Expr,
        element: TypeId,
        annotation: Option<&'b TypeNode>,
    ) -> (r: Option<Vec<CheckDiagnostic>>)
        where 'a: 'b
        requires
            old(self).inv(),
            valid_id(old(self).types@, element),
        ensures
            final(self).inv(),
            Self::grown(old(self), final(self)),
            (final(self).types@, facts_opt(r)) == array_structural_facts(
                old(self).ectx(),
                old(self).decls(),
                old(self).types@,
                *expr,
                element,
                opt_node(annotation),
            ),
        decreases expr, 0int,
    {
        let ghost c = self.ectx();
        let ghost d = self.decls();
        let elements = match &expr.kind {
            ExprKind::Array(elements) => elements,
            _ => return None,
        };
        let element_annotation = match annotation {
            Some(annotation) => self.array_element_annotation(annotation),
            None => None,
        };
        let ghost ea = opt_node(element_annotation);
        proof {
            assert(ea == match opt_node(annotation) {
                Some(a) => element_annotation_of(d, a),
                None => None,
            });
            lemma_array_structural_unfold(c, d, self.types@, *expr, element, opt_node(annotation));
        }
        let ghost start = *self;
        let mut diagnostics: Vec<CheckDiagnostic> = Vec::new();
        let mut i: usize = 0;
        assert(facts_of(diagnostics@) =~= Seq::<DiagnosticFacts>::empty());
        while i < elements.len()
            invariant
                self.inv(),
                Self::grown(&start, self),
                start == *old(self),
                c == start.ectx(),
                d == start.decls(),
                ea == opt_node(element_annotation),
                expr.kind == ExprKind::Array(*elements),
                valid_id(self.types@, element),
                i <= elements@.len(),
                element_checks(c, d, start.types@, elements@, element, ea, i as nat) == (
                    self.types@,
                    Some(facts_of(diagnostics@)),
                ),
                array_structural_facts(c, d, start.types@, *expr, element, opt_node(annotation)) == element_checks(
                    c,
                    d,
                    start.types@,
                    elements@,
                    element,
                    ea,
                    elements@.len(),
                ),
            decreases elements@.len() - i,
        {
            let ghost before = *self;
            let ghost before_facts = facts_of(diagnostics@);
            let item = match &elements[i] {
                ArrayElement::Expression(item) => item,
                ArrayElement::Other => {
                    proof {
                        assert(elements@[i as int] is Other);
                        assert(element_checks(c, d, start.types@, elements@, element, ea, (i + 1) as nat) == (
                            self.types@,
                            None::<Seq<DiagnosticFacts>>,
                        ));
                        lemma_element_checks_stop(c, d, start.types@, elements@, element, ea, i as nat + 1, elements@.len());
                    }
                    return None;
                },
            };
            proof {
                assert(elements@[i as int] == ArrayElement::Expression(*item));
                vstd::std_specs::vec::axiom_vec_index_decreases(*elements, i as int);
                assert(decreases_to!(expr.kind => expr.kind->Array_0));
                assert(decreases_to!(elements[i as int] => elements[i as int]->Expression_0));
                assert(decreases_to!(*expr => *item));
            }
            let nested = self.structural_diagnostics(item, element, element_annotation, None);
            proof {
                assert(self.ectx() == c);
                assert(self.decls() == d);
            }
            match nested {
                Some(mut nested) => {
                    let ghost nested_facts = facts_of(nested@);
                    diagnostics.append(&mut nested);
                    proof {
                        assert(facts_of(diagnostics@) =~= before_facts + nested_facts);
                    }
                },
                None => {
                    proof {
                        lemma_element_checks_stop(c, d, start.types@, elements@, element, ea, i as nat + 1, elements@.len());
                    }
                    return None;
                },
            }
            proof {
                lemma_prefix_trans(start.types@, before.types@, self.types@);
            }
            i = i + 1;
        }
        Some(diagnostics)
    }
}

/// Whether every member of an object literal is a property that is
/// neither computed nor a method.
fn plain_properties(members: &Vec<ObjectMember>) -> (r: bool)
    ensures
        r == plain_members(members@),
{
    let mut k: usize = 0;
    while k < members.len()
        invariant
            k <= members@.len(),
            forall|i: int| 0 <= i < k ==> plain_member(#[trigger] members@[i]),
        decreases members@.len() - k,
    {
        match &members[k] {
            ObjectMember::Property(property) => {
                if property.computed || property.method {
                    return false;
                }
            },
            ObjectMember::Other => return false,
        }
        k = k + 1;
    }
    true
}

/// The positions of the required properties that no property of the
/// object literal names, in declaration order.
fn missing_properties(properties: &Vec<ObjectTypeProperty>, members: &Vec<ObjectMember>) -> (r: Vec<usize>)
    ensures
        forall|q: int| 0 <= q < r@.len() ==> #[trigger] r@[q] < properties@.len(),
        r@.map_values(|k: usize| k as int) == missing_upto(properties_view(properties@), members@, properties@.len() as nat),
{
    let ghost ps = properties_view(properties@);
    let mut missing: Vec<usize> = Vec::new();
    let mut p: usize = 0;
    assert(missing@.map_values(|k: usize| k as int) =~= Seq::<int>::empty());
    while p < properties.len()
        invariant
            ps == properties_view(properties@),
            p <= properties@.len(),
            forall|q: int| 0 <= q < missing@.len() ==> #[trigger] missing@[q] < properties@.len(),
            missing@.map_values(|k: usize| k as int) == missing_upto(ps, members@, p as nat),
        decreases properties@.len() - p,
    {
        assert(ps[p as int] == properties@[p as int]@);
        if !properties[p].optional {
            let mut named = false;
            let mut m: usize = 0;
            while m < members.len()
                invariant
                    ps == properties_view(properties@),
                    p < properties@.len(),
                    m <= members@.len(),
                    named == exists|i: int| 0 <= i < m && member_named(#[trigger] members@[i], properties@[p as int].name@),
                decreases members@.len() - m,
            {
                let hit = match &members[m] {
                    ObjectMember::Property(member) => match &member.name {
                        Some(name) => crate::text::str_equal(name.as_str(), properties[p].name.as_str()),
                        None => false,
                    },
                    ObjectMember::Other => false,
                };
                assert(hit == member_named(members@[m as int], properties@[p as int].name@));
                if hit {
                    named = true;
                }
                m = m + 1;
            }
            assert(named == named_in(members@, ps[p as int].name));
            if !named {
                let ghost before = missing@.map_values(|k: usize| k as int);
                missing.push(p);
                assert(missing@.map_values(|k: usize| k as int) =~= before.push(p as int));
            }
        }
        p = p + 1;
    }
    missing
}

impl<'a> Checker<'a> {
    /// The diagnostics found so far.
    pub closed spec fn found(&self) -> Seq<CheckDiagnostic> {
        self.diagnostics@
    }

    /// The signature of the function being checked, if it has one.
    pub closed spec fn current(&self) -> Option<SignatureId> {
        self.current_signature
    }

    /// The names being resolved.
    pub closed spec fn resolving_view(&self) -> Seq<Seq<char>> {
        strings_view(self.resolving@)
    }

    /// The return type of signature `id`.
    pub closed spec fn return_type_of(&self, id: SignatureId) -> TypeId {
        self.signatures@[id.idx() as int].return_type
    }

    /// How diagnostics name the return type of signature `id`.
    pub closed spec fn return_name(&self, id: SignatureId) -> Seq<PieceView> {
        pieces_view(self.signatures@[id.idx() as int].return_diagnostic_name@)
    }

    /// The declared type of each symbol.
    pub closed spec fn symbol_type_map(&self) -> Map<u32, TypeId> {
        self.symbol_types@
    }

    /// The annotated signature registered for each function symbol.
    pub closed spec fn function_signature_map(&self) -> Map<u32, SignatureId> {
        self.function_signatures@
    }

    /// The parameters of signature `id`: each one's type and how
    /// diagnostics name it.
    pub closed spec fn parameters_of(&self, id: SignatureId) -> Seq<(TypeId, Seq<PieceView>)> {
        self.signatures@[id.idx() as int].parameters@.map_values(
            |p: SignatureParameter| (p.type_id, pieces_view(p.diagnostic_name@)),
        )
    }

    /// The store, signatures, function signatures and symbol types.
    pub closed spec fn registry(&self) -> Registry {
        Registry {
            types: self.types@,
            signatures: self.signatures@.map_values(|s: Signature| signature_view(s)),
            functions: Map::new(
                |s: u32| self.function_signatures@.contains_key(s),
                |s: u32| self.function_signatures@[s].idx() as nat,
            ),
            symbols: self.symbol_types@,
        }
    }

    /// The registry reads as the other views of the checker do.
    pub proof fn lemma_registry_agrees(&self, id: SignatureId, symbol: u32)
        ensures
            self.registry().types == self.types_view(),
            self.registry().symbols == self.symbol_type_map(),
            self.registry().signatures.len() == self.signature_count(),
            self.registry().functions.contains_key(symbol) == self.function_signature_map().contains_key(symbol),
            self.function_signature_map().contains_key(symbol) ==> self.registry().functions[symbol]
                == self.function_signature_map()[symbol].idx(),
            id.idx() < self.signature_count() ==> self.registry().signatures[id.idx() as int] == (SignatureView {
                parameters: self.parameters_of(id),
                return_type: self.return_type_of(id),
                return_name: self.return_name(id),
            }),
    {
    }

    /// The number of parameters of signature `id`.
    pub closed spec fn parameter_count(&self, id: SignatureId) -> nat {
        self.signatures@[id.idx() as int].parameters@.len()
    }

    /// `new` differs from `old` in types added to the store and diagnostics
    /// appended, and possibly in the types of symbols.
    pub closed spec fn extended(old: &Self, new: &Self) -> bool {
        &&& old.types@.is_prefix_of(new.types@)
        &&& new.aliases == old.aliases
        &&& new.interfaces == old.interfaces
        &&& strings_view(new.resolving@) == strings_view(old.resolving@)
        &&& old.diagnostics@.is_prefix_of(new.diagnostics@)
        &&& new.signatures@ == old.signatures@
        &&& new.function_signatures@ == old.function_signatures@
        &&& new.current_signature == old.current_signature
    }

    /// What `extended` keeps: the earlier diagnostics and types stay where
    /// they were, and the declarations, signatures, function signatures and
    /// the function being checked do not change.
    pub proof fn lemma_extended_keeps(old: &Self, new: &Self)
        requires
            Self::extended(old, new),
        ensures
            old.found().is_prefix_of(new.found()),
            old.types_view().is_prefix_of(new.types_view()),
            new.decls() == old.decls(),
            new.resolving_view() == old.resolving_view(),
            new.current() == old.current(),
            new.function_signature_map() == old.function_signature_map(),
            new.registry().signatures == old.registry().signatures,
            new.registry().functions == old.registry().functions,
            new.signature_count() == old.signature_count(),
    {
        assert(new.registry().functions =~= old.registry().functions);
    }

    /// Append diagnostics found by a structural check.
    fn report_all(&mut self, found: Vec<CheckDiagnostic>)
        requires
            old(self).inv(),
        ensures
            final(self).inv(),
            Self::extended(old(self), final(self)),
            final(self).symbol_types@ == old(self).symbol_types@,
            final(self).types@ == old(self).types@,
            final(self).diagnostics@ == old(self).diagnostics@ + found@,
    {
        let mut found = found;
        let ghost f = found@;
        self.diagnostics.append(&mut found);
        proof {
            assert(self.diagnostics@.subrange(0, old(self).diagnostics@.len() as int) =~= old(self).diagnostics@);
            assert(self.types@.subrange(0, self.types@.len() as int) =~= self.types@);
        }
    }

    /// Append one diagnostic.
    fn report(&mut self, diagnostic: CheckDiagnostic)
        requires
            old(self).inv(),
        ensures
            final(self).inv(),
            Self::extended(old(self), final(self)),
            final(self).symbol_types@ == old(self).symbol_types@,
            final(self).types@ == old(self).types@,
            final(self).diagnostics@ == old(self).diagnostics@.push(diagnostic),
    {
        self.diagnostics.push(diagnostic);
        proof {
            assert(self.diagnostics@.subrange(0, old(self).diagnostics@.len() as int) =~= old(self).diagnostics@);
            assert(self.types@.subrange(0, self.types@.len() as int) =~= self.types@);
        }
    }

    /// Check a `return` statement against the return annotation of the
    /// function being checked: TS2322 at the statement when the returned
    /// value's type (`undefined` for a bare `return`) is not assignable.
    pub fn return_statement(&mut self, statement: &ReturnStatement)
        requires
            old(self).inv(),
        ensures
            final(self).inv(),
            Self::extended(old(self), final(self)),
            final(self).symbol_type_map() == old(self).symbol_type_map(),
            old(self).current() is None ==> final(self).found() == old(self).found() && final(self).types_view()
                == old(self).types_view(),
            ({
                let id = old(self).current()->Some_0;
                let target = old(self).return_type_of(id);
                let typed = match statement.argument {
                    Some(e) => expr_type(old(self).ectx(), old(self).types_view(), e, Some(target)),
                    None => (old(self).types_view(), Some(TypeId::from_index(4))),
                };
                old(self).current() is Some ==> mismatch_reported(
                    old(self).found(),
                    final(self).found(),
                    final(self).types_view(),
                    typed,
                    target,
                    old(self).return_name(id),
                    statement.span,
                    true,
                )
            }),
    {
        let signature_id = match self.current_signature {
            Some(id) => id,
            None => return,
        };
        let (target, expected) = match self.signatures.get(signature_id) {
            Some(signature) => (signature.return_type, clone_pieces(&signature.return_diagnostic_name)),
            None => return,
        };
        proof {
            assert(signature_valid(self.types@, self.signatures@[signature_index(signature_id)]));
        }
        let ghost start = *self;
        let actual = match &statement.argument {
            Some(expression) => self.type_from_expression(expression, Some(target)),
            None => Some(self.types.primitives().undefined),
        };
        let actual = match actual {
            Some(actual) => actual,
            None => return,
        };
        let ghost middle = *self;
        if self.assignable(actual, target) {
            return;
        }
        let actual = self.diagnostic_source_type(actual, target);
        let detail = self.relation_detail(actual, target);
        let mut message = framed_message("Type '", self.type_text(actual), "' is not assignable to type '", expected, "'.");
        append_pieces(&mut message, detail);
        proof {
            lemma_prefix_trans(start.types@, middle.types@, self.types@);
        }
        self.report(check_diagnostic("TS2322", message, statement.span));
        proof {
            assert(self.diagnostics@.drop_last() =~= old(self).diagnostics@);
        }
    }

    /// Check a call of an annotated function: TS2554 when the number of
    /// arguments differs from the number of parameters (at the callee when
    /// too few, at the first extra argument when too many), else TS2345 at
    /// each argument whose type is not assignable to its parameter's.
    #[verifier::rlimit(40)]
    pub fn call_expression(&mut self, call: &CallExpr)
        requires
            old(self).inv(),
        ensures
            final(self).inv(),
            Self::extended(old(self), final(self)),
            final(self).symbol_type_map() == old(self).symbol_type_map(),
            match call_signature(old(self).function_signature_map(), call) {
                None => final(self).found() == old(self).found() && final(self).types_view() == old(self).types_view(),
                Some(id) => {
                    let n = old(self).parameter_count(id);
                    let m = call.arguments@.len();
                    &&& n == m ==> ({
                        let (v1, ds, _) = argument_checks(
                            old(self).ectx(),
                            old(self).types_view(),
                            call.arguments@,
                            old(self).parameters_of(id),
                            m,
                        );
                        final(self).types_view() == v1 && facts_of(final(self).found()) == facts_of(
                            old(self).found(),
                        ) + ds
                    })
                    &&& n != m ==> {
                        &&& final(self).found().len() == old(self).found().len() + 1
                        &&& final(self).found().last().code@ == "TS2554"@
                        &&& pieces_view(final(self).found().last().message@) == arity_message(n, m)
                        &&& final(self).found().last().range == Some(
                            if m < n {
                                call.callee.span
                            } else {
                                call.arguments@[n as int].span
                            },
                        )
                        &&& final(self).types_view() == old(self).types_view()
                    }
                },
            },
    {
        let signature_id = match self.signature_for_call(call) {
            Some(id) => id,
            None => {
                proof {
                    assert(self.diagnostics@.subrange(0, self.diagnostics@.len() as int) =~= self.diagnostics@);
                    assert(self.types@.subrange(0, self.types@.len() as int) =~= self.types@);
                }
                return;
            },
        };
        let expected_count = match self.signatures.get(signature_id) {
            Some(signature) => signature.parameters.len(),
            None => return,
        };
        let actual_count = call.arguments.len();
        if actual_count != expected_count {
            let range = if actual_count < expected_count {
                call.callee.span
            } else {
                call.arguments[expected_count].span
            };
            let mut text = "Expected ".to_owned();
            crate::text::push_decimal(&mut text, expected_count as u64);
            crate::text::push_str(&mut text, " arguments, but got ");
            crate::text::push_decimal(&mut text, actual_count as u64);
            crate::text::push_str(&mut text, ".");
            let message = vec![DisplayPiece::Text(text)];
            proof {
                assert(pieces_view(message@) =~= arity_message(expected_count as nat, actual_count as nat));
            }
            self.report(check_diagnostic("TS2554", message, range));
            return;
        }
        let ghost start = *self;
        let ghost c = self.ectx();
        let ghost params = self.parameters_of(signature_id);
        let mut index: usize = 0;
        assert(facts_of(self.diagnostics@) =~= facts_of(start.diagnostics@) + Seq::<DiagnosticFacts>::empty());
        while index < expected_count
            invariant
                self.inv(),
                Self::extended(&start, self),
                start == *old(self),
                self.symbol_types@ == start.symbol_types@,
                c == start.ectx(),
                params == start.parameters_of(signature_id),
                signature_id.idx() < self.signatures@.len(),
                expected_count == call.arguments@.len(),
                call_signature(start.function_signature_map(), call) == Some(signature_id),
                expected_count == start.parameter_count(signature_id),
                index <= expected_count,
                ({
                    let (v1, ds, stopped) = argument_checks(c, start.types@, call.arguments@, params, index as nat);
                    &&& !stopped
                    &&& self.types@ == v1
                    &&& facts_of(self.diagnostics@) == facts_of(start.diagnostics@) + ds
                }),
            decreases expected_count - index,
        {
            let ghost before = *self;
            let argument = match &call.arguments[index].expression {
                Some(argument) => argument,
                None => {
                    proof {
                        lemma_argument_checks_stopped(c, start.types@, call.arguments@, params, index as nat + 1, expected_count as nat);
                    }
                    return;
                },
            };
            let (target, expected) = match self.signatures.get(signature_id) {
                Some(signature) => {
                    if index >= signature.parameters.len() {
                        return;
                    }
                    proof {
                        assert(signature_valid(self.types@, self.signatures@[signature_index(signature_id)]));
                        assert(valid_id(self.types@, signature.parameters@[index as int].type_id));
                    }
                    (signature.parameters[index].type_id, clone_pieces(&signature.parameters[index].diagnostic_name))
                },
                None => return,
            };
            proof {
                assert(params[index as int] == (target, pieces_view(expected@)));
            }
            let actual = self.type_from_expression(argument, Some(target));
            let ghost middle = *self;
            proof {
                lemma_prefix_trans(start.types@, before.types@, self.types@);
                assert(self.ectx() == c);
            }
            if let Some(actual) = actual {
                if !self.assignable(actual, target) {
                    let actual = self.diagnostic_source_type(actual, target);
                    let detail = self.relation_detail(actual, target);
                    let mut message = framed_message(
                        "Argument of type '",
                        self.type_text(actual),
                        "' is not assignable to parameter of type '",
                        expected,
                        "'.",
                    );
                    append_pieces(&mut message, detail);
                    let ghost before_report = *self;
                    self.report(check_diagnostic("TS2345", message, argument.span));
                    proof {
                        assert(start.diagnostics@.is_prefix_of(self.diagnostics@)) by {
                            assert(self.diagnostics@.subrange(0, start.diagnostics@.len() as int) =~= before.diagnostics@.subrange(0, start.diagnostics@.len() as int));
                        }
                        assert(facts_of(self.diagnostics@) =~= facts_of(before_report.diagnostics@).push(
                            facts(self.diagnostics@.last()),
                        ));
                    }
                }
            }
            index = index + 1;
        }
    }
}

impl<'a> Checker<'a> {
    /// Record the declared type of a symbol.
    fn set_symbol_type(&mut self, symbol: u32, type_id: TypeId)
        requires
            old(self).inv(),
            valid_id(old(self).types@, type_id),
        ensures
            final(self).inv(),
            Self::extended(old(self), final(self)),
            final(self).types@ == old(self).types@,
            final(self).diagnostics@ == old(self).diagnostics@,
            final(self).symbol_types@ == old(self).symbol_types@.insert(symbol, type_id),
    {
        self.symbol_types.insert(symbol, type_id);
        proof {
            assert(self.diagnostics@.subrange(0, self.diagnostics@.len() as int) =~= self.diagnostics@);
            assert(self.types@.subrange(0, self.types@.len() as int) =~= self.types@);
        }
    }

    /// Check an annotated variable's initializer: structural diagnostics
    /// for object and array literals against object and array targets,
    /// else TS2322 at the declared name.
    fn check_variable_initializer(
        &mut self,
        declaration: &VariableDeclarator,
        annotation: &TypeNode,
        initializer: &Expr,
        expected: TypeId,
    )
        requires
            old(self).inv(),
            valid_id(old(self).types@, expected),
        ensures
            final(self).inv(),
            Self::extended(old(self), final(self)),
            final(self).symbol_types@ == old(self).symbol_types@,
            check_reported(
                old(self).found(),
                final(self).found(),
                final(self).types@,
                old(self).ectx(),
                old(self).decls(),
                old(self).types@,
                *initializer,
                expected,
                Some(*annotation),
                declaration.id_span,
                |v: Seq<KindView>| assignment_target_pieces(v, annotation.text@, expected),
            ),
    {
        if self.needs_structural_diagnostics(initializer, expected) {
            let found = self.structural_diagnostics(initializer, expected, Some(annotation), Some(declaration.id_span));
            if let Some(found) = found {
                let ghost middle = *self;
                let ghost listed = found@;
                self.report_all(found);
                proof {
                    lemma_prefix_trans(old(self).types@, middle.types@, self.types@);
                    assert(facts_of(self.diagnostics@) =~= facts_of(old(self).diagnostics@) + facts_of(listed));
                }
                return;
            }
            proof {
                assert(self.diagnostics@ == old(self).diagnostics@);
            }
        }
        let ghost before = *self;
        let actual = match self.type_from_expression(initializer, Some(expected)) {
            Some(actual) => actual,
            None => {
                proof {
                    lemma_prefix_trans(old(self).types@, before.types@, self.types@);
                    assert(self.diagnostics@.subrange(0, old(self).diagnostics@.len() as int) =~= old(self).diagnostics@);
                }
                return;
            },
        };
        proof {
            lemma_prefix_trans(old(self).types@, before.types@, self.types@);
        }
        if self.assignable(actual, expected) {
            proof {
                assert(self.diagnostics@.subrange(0, old(self).diagnostics@.len() as int) =~= old(self).diagnostics@);
            }
            return;
        }
        let actual = self.diagnostic_source_type(actual, expected);
        let message = framed_message(
            "Type '",
            self.type_text(actual),
            "' is not assignable to type '",
            self.assignment_target_text(annotation, expected),
            "'.",
        );
        self.report(check_diagnostic("TS2322", message, declaration.id_span));
        proof {
            assert(self.diagnostics@.drop_last() =~= old(self).diagnostics@);
        }
    }

    /// Check a variable declarator: its initializer against its annotation,
    /// then record the variable's type (the annotated type, or else the
    /// initializer's) for a simple identifier binding.
    pub fn variable_declarator(&mut self, declaration: &VariableDeclarator)
        requires
            old(self).inv(),
        ensures
            final(self).inv(),
            Self::extended(old(self), final(self)),
            ({
                let v0 = old(self).types_view();
                let declared = match declaration.annotation {
                    Some(a) => annotation_type(old(self).decls(), v0, old(self).resolving_view(), a),
                    None => (v0, None::<TypeId>),
                };
                let inferred = match declaration.init {
                    Some(e) => expr_type(old(self).ectx(), v0, e, None),
                    None => (v0, None::<TypeId>),
                };
                &&& declaration.annotation is Some ==> final(self).symbol_type_map() == recorded(
                    old(self).symbol_type_map(),
                    declaration.binding,
                    declared.1,
                )
                &&& declaration.annotation is None ==> final(self).symbol_type_map() == recorded(
                    old(self).symbol_type_map(),
                    declaration.binding,
                    inferred.1,
                ) && final(self).types_view() == inferred.0 && final(self).found() == old(self).found()
                &&& (declaration.annotation is Some && (declaration.init is None || declared.1 is None))
                    ==> final(self).found() == old(self).found() && final(self).types_view() == declared.0
                &&& (declaration.annotation is Some && declaration.init is Some && declared.1 is Some)
                    ==> check_reported(
                    old(self).found(),
                    final(self).found(),
                    final(self).types_view(),
                    old(self).ectx(),
                    old(self).decls(),
                    declared.0,
                    declaration.init->Some_0,
                    declared.1->Some_0,
                    declaration.annotation,
                    declaration.id_span,
                    |v: Seq<KindView>| assignment_target_pieces(
                        v,
                        declaration.annotation->Some_0.text@,
                        declared.1->Some_0,
                    ),
                )
            }),
    {
        let declared_type = match &declaration.annotation {
            Some(annotation) => self.type_from_annotation(annotation),
            None => None,
        };
        let ghost after_annotation = *self;
        proof {
            assert(self.diagnostics@.subrange(0, self.diagnostics@.len() as int) =~= self.diagnostics@);
        }
        if let (Some(annotation), Some(initializer), Some(expected)) = (&declaration.annotation, &declaration.init, declared_type) {
            self.check_variable_initializer(declaration, annotation, initializer, expected);
        }
        let ghost after_check = *self;
        proof {
            lemma_prefix_trans(old(self).types@, after_annotation.types@, self.types@);
            assert(old(self).diagnostics@.is_prefix_of(self.diagnostics@));
        }
        let variable_type = if declaration.annotation.is_some() {
            declared_type
        } else {
            match &declaration.init {
                Some(initializer) => self.type_from_expression(initializer, None),
                None => None,
            }
        };
        proof {
            lemma_prefix_trans(old(self).types@, after_check.types@, self.types@);
            assert(old(self).diagnostics@.is_prefix_of(self.diagnostics@)) by {
                assert(self.diagnostics@ == after_check.diagnostics@);
            }
            if let Some(t) = declared_type {
                assert(valid_id(after_annotation.types@, t));
            }
        }
        if let (Binding::Identifier(Some(symbol)), Some(variable_type)) = (declaration.binding, variable_type) {
            let ghost before = *self;
            self.set_symbol_type(symbol, variable_type);
            proof {
                assert(old(self).diagnostics@.is_prefix_of(self.diagnostics@)) by {
                    assert(self.diagnostics@ == before.diagnostics@);
                }
                lemma_prefix_trans(old(self).types@, before.types@, self.types@);
            }
        }
    }

    /// Check a plain `=` assignment to an identifier with a declared type:
    /// structural diagnostics for object and array literals against object
    /// and array targets, else TS2322 at the identifier.
    pub fn assignment_expression(&mut self, assignment: &AssignmentExpression)
        requires
            old(self).inv(),
        ensures
            final(self).inv(),
            Self::extended(old(self), final(self)),
            final(self).symbol_type_map() == old(self).symbol_type_map(),
            !assignment.plain ==> final(self).found() == old(self).found(),
            (assignment.plain && (assignment.target is None || symbol_type_of(
                old(self).symbol_type_map(),
                assignment.target->Some_0.symbol,
            ) is None)) ==> final(self).found() == old(self).found() && final(self).types_view()
                == old(self).types_view(),
            ({
                let t = symbol_type_of(old(self).symbol_type_map(), assignment.target->Some_0.symbol)->Some_0;
                (assignment.plain && assignment.target is Some && symbol_type_of(
                    old(self).symbol_type_map(),
                    assignment.target->Some_0.symbol,
                ) is Some) ==> check_reported(
                    old(self).found(),
                    final(self).found(),
                    final(self).types_view(),
                    old(self).ectx(),
                    old(self).decls(),
                    old(self).types_view(),
                    assignment.right,
                    t,
                    None,
                    assignment.target->Some_0.span,
                    |v: Seq<KindView>| display_pieces(v, t),
                )
            }),
    {
        proof {
            assert(self.diagnostics@.subrange(0, self.diagnostics@.len() as int) =~= self.diagnostics@);
            assert(self.types@.subrange(0, self.types@.len() as int) =~= self.types@);
        }
        if !assignment.plain {
            return;
        }
        let identifier = match assignment.target {
            Some(identifier) => identifier,
            None => return,
        };
        let target = match self.symbol_type(identifier.symbol) {
            Some(target) => target,
            None => return,
        };
        if self.needs_structural_diagnostics(&assignment.right, target) {
            let found = self.structural_diagnostics(&assignment.right, target, None, Some(identifier.span));
            if let Some(found) = found {
                let ghost middle = *self;
                let ghost listed = found@;
                self.report_all(found);
                proof {
                    lemma_prefix_trans(old(self).types@, middle.types@, self.types@);
                    assert(facts_of(self.diagnostics@) =~= facts_of(old(self).diagnostics@) + facts_of(listed));
                }
                return;
            }
            proof {
                assert(self.diagnostics@ == old(self).diagnostics@);
            }
        }
        let ghost before = *self;
        let found = self.type_mismatch_diagnostic(&assignment.right, target, None, Some(identifier.span));
        proof {
            lemma_prefix_trans(old(self).types@, before.types@, self.types@);
        }
        if let Some(diagnostic) = found {
            let ghost middle = *self;
            self.report(diagnostic);
            proof {
                assert(self.diagnostics@.drop_last() =~= old(self).diagnostics@);
            }
        }
    }

    /// Register the signature of an annotated function declaration: every
    /// parameter a required, plain, annotated identifier and the return type
    /// annotated. The parameters' symbols take their annotated types.
    #[verifier::rlimit(40)]
    fn register_function_signature(&mut self, function: &FunctionDeclaration)
        requires
            old(self).inv(),
        ensures
            final(self).inv(),
            final(self).diagnostics@ == old(self).diagnostics@,
            final(self).aliases == old(self).aliases,
            final(self).interfaces == old(self).interfaces,
            strings_view(final(self).resolving@) == strings_view(old(self).resolving@),
            final(self).current_signature == old(self).current_signature,
            final(self).registry() == register_function(
                old(self).decls(),
                strings_view(old(self).resolving@),
                old(self).registry(),
                *function,
            ),
    {
        let ghost d = self.decls();
        let ghost res = strings_view(self.resolving@);
        let ghost g = self.registry();
        proof {
            assert(self.registry() == Registry { types: g.types, signatures: g.signatures, functions: g.functions, symbols: g.symbols });
        }
        if !function.is_declaration || function.generator || function.is_async || function.declare
            || function.has_type_parameters || function.has_this_parameter || function.has_rest_parameter
            || !function.has_body {
            return;
        }
        let (id, return_annotation) = match (&function.id, &function.return_annotation) {
            (Some(id), Some(return_annotation)) => (id, return_annotation),
            _ => return,
        };
        let function_symbol = match id.symbol {
            Some(symbol) => symbol,
            None => return,
        };
        let ghost start = *self;
        let mut parameters: Vec<SignatureParameter> = Vec::new();
        let mut parameter_symbols: Vec<(u32, TypeId)> = Vec::new();
        let ghost mut list: Seq<(u32, TypeId, Seq<PieceView>)> = Seq::empty();
        let mut i: usize = 0;
        while i < function.parameters.len()
            invariant
                self.inv(),
                Self::grown(&start, self),
                start == *old(self),
                d == start.decls(),
                res == strings_view(start.resolving@),
                g == start.registry(),
                function.is_declaration && !function.generator && !function.is_async && !function.declare,
                !function.has_type_parameters && !function.has_this_parameter && !function.has_rest_parameter,
                function.has_body,
                function.id == Some(*id),
                function.return_annotation == Some(*return_annotation),
                id.symbol == Some(function_symbol),
                i <= function.parameters@.len(),
                parameter_list(d, start.types@, res, function.parameters@, i as nat) == (self.types@, Some(list)),
                parameters@.len() == list.len(),
                parameter_symbols@.len() == list.len(),
                forall|k: int| 0 <= k < list.len() ==> (#[trigger] parameters@[k]).type_id == list[k].1
                    && pieces_view(parameters@[k].diagnostic_name@) == list[k].2,
                forall|k: int| 0 <= k < list.len() ==> #[trigger] parameter_symbols@[k] == (list[k].0, list[k].1),
                forall|k: int| 0 <= k < parameters@.len() ==> valid_id(self.types@, #[trigger] parameters@[k].type_id),
                forall|k: int| 0 <= k < parameter_symbols@.len() ==> valid_id(self.types@, #[trigger] parameter_symbols@[k].1),
            decreases function.parameters@.len() - i,
        {
            let ghost before = *self;
            let parameter = &function.parameters[i];
            if parameter.optional || parameter.has_initializer || parameter.has_accessibility || parameter.readonly
                || parameter.is_override || parameter.has_decorators {
                proof {
                    lemma_parameter_list_stop(d, start.types@, res, function.parameters@, i as nat + 1, function.parameters@.len());
                }
                return;
            }
            let symbol = match parameter.binding {
                Binding::Identifier(Some(symbol)) => symbol,
                _ => {
                    proof {
                        lemma_parameter_list_stop(d, start.types@, res, function.parameters@, i as nat + 1, function.parameters@.len());
                    }
                    return;
                },
            };
            let annotation = match &parameter.annotation {
                Some(annotation) => annotation,
                None => {
                    proof {
                        lemma_parameter_list_stop(d, start.types@, res, function.parameters@, i as nat + 1, function.parameters@.len());
                    }
                    return;
                },
            };
            let type_id = match self.type_from_annotation(annotation) {
                Some(type_id) => type_id,
                None => {
                    proof {
                        lemma_parameter_list_stop(d, start.types@, res, function.parameters@, i as nat + 1, function.parameters@.len());
                    }
                    return;
                },
            };
            let diagnostic_name = self.target_text(type_id, Some(annotation));
            let ghost name_view = pieces_view(diagnostic_name@);
            parameters.push(SignatureParameter { type_id, diagnostic_name });
            parameter_symbols.push((symbol, type_id));
            proof {
                lemma_prefix_trans(start.types@, before.types@, self.types@);
                list = list.push((symbol, type_id, name_view));
            }
            i = i + 1;
        }
        let ghost before_return = *self;
        let return_type = match self.type_from_annotation(return_annotation) {
            Some(return_type) => return_type,
            None => return,
        };
        proof {
            lemma_prefix_trans(start.types@, before_return.types@, self.types@);
        }
        let return_diagnostic_name = self.target_text(return_type, Some(return_annotation));
        let ghost return_name = pieces_view(return_diagnostic_name@);
        proof {
            assert(function_registration(d, start.types@, res, *function) == (
                self.types@,
                Some((function_symbol, list, return_type, return_name)),
            ));
        }
        if self.signatures.len() >= 0xFFFF_FFFF {
            return;
        }
        let ghost before_add = *self;
        let signature = Signature { parameters, return_type, return_diagnostic_name };
        proof {
            assert(signature_view(signature).parameters =~= list.map_values(
                |x: (u32, TypeId, Seq<PieceView>)| (x.1, x.2),
            ));
        }
        let signature_id = self.signatures.add(signature);
        self.function_signatures.insert(function_symbol, signature_id);
        proof {
            assert forall|k: int| 0 <= k < self.signatures@.len() implies signature_valid(self.types@, #[trigger] self.signatures@[k]) by {
                if k < before_add.signatures@.len() {
                    assert(self.signatures@[k] == before_add.signatures@[k]);
                }
            }
            assert(self.registry().signatures =~= g.signatures.push(signature_view(signature)));
            assert(self.registry().functions =~= g.functions.insert(function_symbol, g.signatures.len()));
        }
        let mut j: usize = 0;
        while j < parameter_symbols.len()
            invariant
                self.inv(),
                self.diagnostics@ == start.diagnostics@,
                self.aliases == start.aliases,
                self.interfaces == start.interfaces,
                strings_view(self.resolving@) == strings_view(start.resolving@),
                self.current_signature == start.current_signature,
                start == *old(self),
                self.types@ == before_add.types@,
                self.registry().signatures == g.signatures.push(signature_view(signature)),
                self.registry().functions == g.functions.insert(function_symbol, g.signatures.len()),
                parameter_symbols@.len() == list.len(),
                forall|k: int| 0 <= k < list.len() ==> #[trigger] parameter_symbols@[k] == (list[k].0, list[k].1),
                forall|k: int| 0 <= k < parameter_symbols@.len() ==> valid_id(self.types@, #[trigger] parameter_symbols@[k].1),
                j <= parameter_symbols@.len(),
                self.symbol_types@ == parameters_recorded(g.symbols, list.take(j as int)),
            decreases parameter_symbols@.len() - j,
        {
            let (symbol, type_id) = parameter_symbols[j];
            proof {
                let t = list.take(j as int + 1);
                assert(t.drop_last() =~= list.take(j as int));
                assert(t.last() == list[j as int]);
            }
            self.set_symbol_type(symbol, type_id);
            j = j + 1;
        }
        proof {
            assert(list.take(list.len() as int) =~= list);
        }
    }

    /// Start checking the body of a function: returns are checked against
    /// the signature registered for `symbol`, if any. Returns the signature
    /// to restore when the body is done.
    pub fn enter_function(&mut self, symbol: Option<u32>) -> (previous: Option<SignatureId>)
        requires
            old(self).inv(),
        ensures
            final(self).inv(),
            previous == old(self).current(),
            final(self).current() == symbol_signature(old(self).function_signature_map(), symbol),
            final(self).found() == old(self).found(),
            final(self).symbol_type_map() == old(self).symbol_type_map(),
            final(self).function_signature_map() == old(self).function_signature_map(),
            final(self).registry() == old(self).registry(),
            final(self).decls() == old(self).decls(),
    {
        let previous = self.current_signature;
        self.current_signature = match symbol {
            Some(symbol) => match self.function_signatures.get(&symbol) {
                Some(id) => Some(*id),
                None => None,
            },
            None => None,
        };
        previous
    }

    /// Start checking the body of an arrow function, where no return is
    /// checked. Returns the signature to restore when the body is done.
    pub fn enter_arrow_function(&mut self) -> (previous: Option<SignatureId>)
        requires
            old(self).inv(),
        ensures
            final(self).inv(),
            previous == old(self).current(),
            final(self).current() is None,
            final(self).found() == old(self).found(),
            final(self).symbol_type_map() == old(self).symbol_type_map(),
            final(self).function_signature_map() == old(self).function_signature_map(),
            final(self).registry() == old(self).registry(),
            final(self).decls() == old(self).decls(),
    {
        let previous = self.current_signature;
        self.current_signature = None;
        previous
    }

    /// Finish a function body, restoring the signature that
    /// `enter_function` or `enter_arrow_function` returned.
    pub fn leave_function(&mut self, previous: Option<SignatureId>)
        requires
            old(self).inv(),
        ensures
            final(self).inv(),
            final(self).current() == (if previous matches Some(id) && id.idx() < old(self).signature_count() {
                previous
            } else {
                None
            }),
            final(self).found() == old(self).found(),
            final(self).symbol_type_map() == old(self).symbol_type_map(),
            final(self).function_signature_map() == old(self).function_signature_map(),
            final(self).registry() == old(self).registry(),
            final(self).decls() == old(self).decls(),
    {
        self.current_signature = match previous {
            Some(id) => if (id.index() as usize) < self.signatures.len() {
                Some(id)
            } else {
                None
            },
            None => None,
        };
    }

    /// The number of registered signatures.
    pub closed spec fn signature_count(&self) -> nat {
        self.signatures@.len()
    }

    /// The diagnostics found, in the order found.
    pub fn into_diagnostics(self) -> (r: Vec<CheckDiagnostic>)
        ensures
            r@ == self.found(),
    {
        self.diagnostics
    }

    /// A checker for a program: its top-level aliases without type
    /// parameters, its unique top-level interfaces without type parameters
    /// or heritage, and the signatures of its unique annotated top-level
    /// functions.
    pub fn new(program: &'a Vec<TopLevel>) -> (r: Checker<'a>)
        ensures
            r.inv(),
            r.current() is None,
            r.found() == Seq::<CheckDiagnostic>::empty(),
            r.resolving_view() == Seq::<Seq<char>>::empty(),
            alias_entries(r.decls()) == program_aliases(program@),
            interface_entries(r.decls()) == program_interfaces(program@),
            r.registry() == registered_functions(
                r.decls(),
                program_functions(program@),
                program_functions(program@).len(),
            ),
    {
        let mut aliases: Vec<(&'a str, &'a TypeNode)> = Vec::new();
        let mut interfaces: Vec<(&'a str, &'a Vec<TypeMember>)> = Vec::new();
        let mut functions: Vec<&'a FunctionDeclaration> = Vec::new();
        let mut i: usize = 0;
        while i < program.len()
            invariant
                i <= program@.len(),
                aliases@.map_values(|a: (&str, &TypeNode)| (a.0@, *a.1)) == program_aliases(program@.take(i as int)),
                interfaces@.map_values(|x: (&str, &Vec<TypeMember>)| (x.0@, *x.1)) == program_interfaces(
                    program@.take(i as int),
                ),
                functions@.map_values(|f: &FunctionDeclaration| *f) == program_functions(program@.take(i as int)),
            decreases program@.len() - i,
        {
            proof {
                let t = program@.take(i as int + 1);
                assert(t.drop_last() =~= program@.take(i as int));
                assert(t.last() == program@[i as int]);
            }
            let ghost a0 = aliases@;
            let ghost i0 = interfaces@;
            let ghost f0 = functions@;
            match &program[i] {
                TopLevel::Alias { name, has_type_parameters, annotation } => {
                    if !*has_type_parameters {
                        aliases.push((name.as_str(), annotation));
                        assert(aliases@.map_values(|a: (&str, &TypeNode)| (a.0@, *a.1)) =~= a0.map_values(
                            |a: (&str, &TypeNode)| (a.0@, *a.1),
                        ).push((name@, *annotation)));
                    }
                },
                TopLevel::Interface(interface) => {
                    if !interface.has_type_parameters && !interface.has_extends && interface.unique {
                        interfaces.push((interface.name.as_str(), &interface.members));
                        assert(interfaces@.map_values(|x: (&str, &Vec<TypeMember>)| (x.0@, *x.1)) =~= i0.map_values(
                            |x: (&str, &Vec<TypeMember>)| (x.0@, *x.1),
                        ).push((interface.name@, interface.members)));
                    }
                },
                TopLevel::Function(function) => {
                    functions.push(function);
                    assert(functions@.map_values(|f: &FunctionDeclaration| *f) =~= f0.map_values(
                        |f: &FunctionDeclaration| *f,
                    ).push(*function));
                },
                TopLevel::Other => {},
            }
            i = i + 1;
        }
        proof {
            assert(program@.take(program@.len() as int) =~= program@);
        }
        let ghost fs = functions@.map_values(|f: &FunctionDeclaration| *f);
        let mut checker = Checker {
            aliases,
            interfaces,
            resolving: Vec::new(),
            diagnostics: Vec::new(),
            types: TypeStore::new(),
            relations: TypeRelations::new(),
            signatures: SignatureStore::new(),
            function_signatures: HashMap::new(),
            symbol_types: HashMap::new(),
            current_signature: None,
        };
        let ghost d = checker.decls();
        proof {
            assert(checker.relations.seen_view().is_prefix_of(checker.types@)) by {
                assert(checker.types@.subrange(0, checker.types@.len() as int) =~= checker.types@);
            }
            assert(strings_view(checker.resolving@) =~= Seq::<Seq<char>>::empty());
            assert(checker.registry().signatures =~= Seq::<SignatureView>::empty());
            assert(checker.registry().functions =~= Map::<u32, nat>::empty());
            assert(checker.registry() == registered_functions(d, fs, 0));
        }
        let mut k: usize = 0;
        while k < functions.len()
            invariant
                checker.inv(),
                checker.current_signature is None,
                checker.diagnostics@ == Seq::<CheckDiagnostic>::empty(),
                strings_view(checker.resolving@) == Seq::<Seq<char>>::empty(),
                checker.decls() == d,
                fs == functions@.map_values(|f: &FunctionDeclaration| *f),
                k <= functions@.len(),
                checker.registry() == registered_functions(d, fs, k as nat),
            decreases functions@.len() - k,
        {
            let function = functions[k];
            proof {
                assert(fs[k as int] == *function);
            }
            if let Some(DeclaredName { symbol: Some(_), unique: true }) = function.id {
                checker.register_function_signature(function);
            }
            k = k + 1;
        }
        checker
    }
}

/// Whether the checker runs on a program: binding reported nothing, and
/// parsing reported nothing or recovered from what it reported.
pub fn should_check(parse_clean: bool, bind_clean: bool, recovered: bool) -> (r: bool)
    ensures
        r == (bind_clean && (parse_clean || recovered)),
{
    let contains_recovery = !parse_clean && recovered;
    bind_clean && (parse_clean || contains_recovery)
}

/// The signature registered for a function symbol.
pub open spec fn symbol_signature(m: Map<u32, SignatureId>, symbol: Option<u32>) -> Option<SignatureId> {
    match symbol {
        Some(s) => if m.contains_key(s) {
            Some(m[s])
        } else {
            None
        },
        None => None,
    }
}

/// The index of a signature identity.
pub open spec fn signature_index(id: SignatureId) -> int {
    id.idx() as int
}

/// Whether a value checked against `target` keeps its literal type: the
/// target is a literal type or a union.
pub open spec fn literal_target(v: Seq<KindView>, target: TypeId) -> bool {
    valid_id(v, target) && (v[target.idx() as int] is BooleanLiteral || v[target.idx() as int] is NumberLiteral
        || v[target.idx() as int] is BigIntLiteral || v[target.idx() as int] is StringLiteral
        || v[target.idx() as int] is Union)
}

/// The source type named in a diagnostic against `target`.
pub open spec fn diagnostic_source(v: Seq<KindView>, source: TypeId, target: TypeId) -> TypeId {
    if valid_id(v, target) && (v[target.idx() as int] is Boolean || v[target.idx() as int] is Number
        || v[target.idx() as int] is BigInt || v[target.idx() as int] is String
        || v[target.idx() as int] is Null || v[target.idx() as int] is Undefined) {
        crate::types::widened(v, source)
    } else {
        source
    }
}

/// The declared type of a symbol.
pub open spec fn symbol_type_of(m: Map<u32, TypeId>, symbol: Option<u32>) -> Option<TypeId> {
    match symbol {
        Some(s) => if m.contains_key(s) {
            Some(m[s])
        } else {
            None
        },
        None => None,
    }
}

/// The signature a call selects: a direct call, without `?.` or type
/// arguments, of an identifier resolving to an annotated function.
pub open spec fn call_signature(m: Map<u32, SignatureId>, call: &CallExpr) -> Option<SignatureId> {
    if call.optional || call.has_type_arguments {
        None
    } else {
        match call.callee.kind {
            ExprKind::Identifier { symbol: Some(s), .. } => if m.contains_key(s) {
                Some(m[s])
            } else {
                None
            },
            _ => None,
        }
    }
}

/// The declarations that annotations may name: type aliases and
/// interfaces, each by name.
pub struct Declarations<'a> {
    pub aliases: Seq<(&'a str, &'a TypeNode)>,
    pub interfaces: Seq<(&'a str, &'a Vec<TypeMember>)>,
}

/// All declared names: aliases first, then interfaces.
pub open spec fn declared_names(d: Declarations) -> Seq<Seq<char>> {
    names_of(d.aliases) + names_of(d.interfaces)
}

/// Interning `k` into the store `v`: the new store and the identity, or
/// nothing when the store has no room for another slot.
pub open spec fn intern_step(v: Seq<KindView>, k: KindView) -> (Seq<KindView>, Option<TypeId>) {
    if v.len() < 0xFFFF_FFFF {
        (interned_view(v, k), Some(interned_id(v, k)))
    } else {
        (v, None)
    }
}

/// Building the union of `ms` in the store `v`, as `intern_step` does.
pub open spec fn union_step(v: Seq<KindView>, ms: Seq<TypeId>) -> (Seq<KindView>, Option<TypeId>) {
    if v.len() < 0xFFFF_FFFF {
        (union_view(v, ms), Some(union_id(v, ms)))
    } else {
        (v, None)
    }
}

/// Whether the reference `name` with `arguments` is `Array<T>`.
pub open spec fn is_generic_array(name: Option<String>, arguments: Option<Vec<TypeNode>>) -> bool {
    &&& name is Some
    &&& name->Some_0@ == "Array"@
    &&& arguments is Some
    &&& arguments->Some_0@.len() == 1
}

/// The type an annotation denotes, starting from the store `v` while the
/// names `r` are being resolved: the store after resolution and the
/// identity, if the annotation is supported.
pub open spec fn annotation_type(d: Declarations, v: Seq<KindView>, r: Seq<Seq<char>>, node: TypeNode) -> (
    Seq<KindView>,
    Option<TypeId>,
)
    decreases declared_names(d).len() - r.len(), node, 1int,
{
    match node.kind {
        TypeNodeKind::Keyword(k) => (v, Some(TypeId::from_index(keyword_index(k)))),
        TypeNodeKind::Literal(literal) => match literal_kind(&literal) {
            Some(k) => intern_step(v, k),
            None => (v, None),
        },
        TypeNodeKind::Union(members) => {
            let (v1, ids) = annotation_list(d, v, r, members@);
            match ids {
                Some(ids) => union_step(v1, ids),
                None => (v1, None),
            }
        },
        TypeNodeKind::Array(element) => {
            let (v1, e) = annotation_type(d, v, r, *element);
            match e {
                Some(e) => intern_step(v1, KindView::Array(e)),
                None => (v1, None),
            }
        },
        TypeNodeKind::TypeLiteral(members) => {
            let (v1, ps) = property_list(d, v, r, members@);
            match ps {
                Some(ps) => intern_step(v1, KindView::Object(ps)),
                None => (v1, None),
            }
        },
        TypeNodeKind::Reference { name, arguments } => {
            if is_generic_array(name, arguments) {
                let (v1, e) = annotation_type(d, v, r, arguments->Some_0@[0]);
                match e {
                    Some(e) => intern_step(v1, KindView::Array(e)),
                    None => (v1, None),
                }
            } else if arguments is Some || name is None || r.contains(name->Some_0@)
                || r.len() >= declared_names(d).len() {
                (v, None)
            } else {
                let n = name->Some_0@;
                match last_named(names_of(d.aliases), n) {
                    Some(i) => annotation_type(d, v, r.push(n), *d.aliases[i].1),
                    None => match last_named(names_of(d.interfaces), n) {
                        Some(i) => {
                            let (v1, ps) = property_list(d, v, r.push(n), d.interfaces[i].1@);
                            match ps {
                                Some(ps) => intern_step(v1, KindView::Object(ps)),
                                None => (v1, None),
                            }
                        },
                        None => (v, None),
                    },
                }
            }
        },
        TypeNodeKind::Parenthesized(inner) => annotation_type(d, v, r, *inner),
        TypeNodeKind::Other => (v, None),
    }
}

/// The types of a list of annotations, in order, stopping at the first
/// that is not supported.
pub open spec fn annotation_list(d: Declarations, v: Seq<KindView>, r: Seq<Seq<char>>, nodes: Seq<TypeNode>) -> (
    Seq<KindView>,
    Option<Seq<TypeId>>,
)
    decreases declared_names(d).len() - r.len(), nodes, 0int,
{
    if nodes.len() == 0 {
        (v, Some(Seq::empty()))
    } else {
        let (v1, ids) = annotation_list(d, v, r, nodes.drop_last());
        match ids {
            None => (v1, None),
            Some(ids) => {
                let (v2, t) = annotation_type(d, v1, r, nodes.last());
                match t {
                    Some(t) => (v2, Some(ids.push(t))),
                    None => (v2, None),
                }
            },
        }
    }
}

/// The properties of a list of property signatures, in order, stopping at
/// the first member that is not a statically named, non-computed property
/// with a supported annotation.
pub open spec fn property_list(d: Declarations, v: Seq<KindView>, r: Seq<Seq<char>>, members: Seq<TypeMember>) -> (
    Seq<KindView>,
    Option<Seq<crate::types::PropertyView>>,
)
    decreases declared_names(d).len() - r.len(), members, 0int,
{
    if members.len() == 0 {
        (v, Some(Seq::empty()))
    } else {
        let (v1, ps) = property_list(d, v, r, members.drop_last());
        match ps {
            None => (v1, None),
            Some(ps) => match members.last() {
                TypeMember::Property(p) => if p.computed || p.name is None || p.annotation is None {
                    (v1, None)
                } else {
                    let (v2, t) = annotation_type(d, v1, r, p.annotation->Some_0);
                    match t {
                        Some(t) => (
                            v2,
                            Some(
                                ps.push(
                                    crate::types::PropertyView {
                                        name: p.name->Some_0@,
                                        type_id: t,
                                        optional: p.optional,
                                    },
                                ),
                            ),
                        ),
                        None => (v2, None),
                    }
                },
                TypeMember::Other => (v1, None),
            },
        }
    }
}

/// What typing an expression reads of the checker: the declared types of
/// symbols, the signatures registered for function symbols, and the return
/// type of each signature.
pub struct ExprContext {
    pub symbol_types: Map<u32, TypeId>,
    pub function_signatures: Map<u32, SignatureId>,
    pub returns: Seq<TypeId>,
}

/// The element types of the array members of a union, in order.
pub open spec fn array_elements(v: Seq<KindView>, ms: Seq<TypeId>) -> Seq<TypeId>
    decreases ms.len(),
{
    if ms.len() == 0 {
        Seq::empty()
    } else {
        let rest = array_elements(v, ms.drop_last());
        let m = ms.last();
        if valid_id(v, m) && v[m.idx() as int] is Array {
            rest.push(v[m.idx() as int]->Array_0)
        } else {
            rest
        }
    }
}

/// The type of the first property named `name`.
pub open spec fn first_property_type(ps: Seq<crate::types::PropertyView>, name: Seq<char>) -> Option<TypeId>
    decreases ps.len(),
{
    if ps.len() == 0 {
        None
    } else if ps[0].name == name {
        Some(ps[0].type_id)
    } else {
        first_property_type(ps.drop_first(), name)
    }
}

/// The types of the first properties named `name` of the object members
/// of a union, in order.
pub open spec fn union_property_types(v: Seq<KindView>, ms: Seq<TypeId>, name: Seq<char>) -> Seq<TypeId>
    decreases ms.len(),
{
    if ms.len() == 0 {
        Seq::empty()
    } else {
        let rest = union_property_types(v, ms.drop_last(), name);
        let m = ms.last();
        if valid_id(v, m) && v[m.idx() as int] is Object {
            match first_property_type(v[m.idx() as int]->Object_0, name) {
                Some(t) => rest.push(t),
                None => rest,
            }
        } else {
            rest
        }
    }
}

/// The contextual element type of an array literal checked against `target`.
pub open spec fn array_element_target(v: Seq<KindView>, target: TypeId) -> (Seq<KindView>, Option<TypeId>) {
    if !valid_id(v, target) {
        (v, None)
    } else {
        match v[target.idx() as int] {
            KindView::Array(e) => (v, Some(e)),
            KindView::Union(ms) => {
                let es = array_elements(v, ms);
                if es.len() == 0 {
                    (v, None)
                } else {
                    union_step(v, es)
                }
            },
            _ => (v, None),
        }
    }
}

/// The contextual type of property `name` of an object literal checked
/// against `target`.
pub open spec fn property_target(v: Seq<KindView>, target: TypeId, name: Seq<char>) -> (Seq<KindView>, Option<TypeId>) {
    if !valid_id(v, target) {
        (v, None)
    } else {
        match v[target.idx() as int] {
            KindView::Object(ps) => (v, first_property_type(ps, name)),
            KindView::Union(ms) => {
                let found = union_property_types(v, ms, name);
                if found.len() == 0 {
                    (v, None)
                } else {
                    union_step(v, found)
                }
            },
            _ => (v, None),
        }
    }
}

/// The type of an expression checked against the contextual `target`,
/// starting from the store `v`: the store after typing and the identity,
/// if the expression is supported.
pub open spec fn expr_type(c: ExprContext, v: Seq<KindView>, expr: Expr, target: Option<TypeId>) -> (
    Seq<KindView>,
    Option<TypeId>,
)
    decreases expr, 1int,
{
    let preserve = match target {
        Some(t) => literal_target(v, t),
        None => false,
    };
    match expr.kind {
        ExprKind::Boolean(b) => if preserve {
            intern_step(v, KindView::BooleanLiteral(b))
        } else {
            (v, Some(TypeId::from_index(6)))
        },
        ExprKind::BigInt(value) => if preserve {
            intern_step(v, KindView::BigIntLiteral(value@))
        } else {
            (v, Some(TypeId::from_index(8)))
        },
        ExprKind::Null => (v, Some(TypeId::from_index(5))),
        ExprKind::Number(bits) => if preserve {
            intern_step(v, KindView::NumberLiteral(crate::types::canonical_number_bits(bits)))
        } else {
            (v, Some(TypeId::from_index(7)))
        },
        ExprKind::Negation(operand) => match operand.kind {
            ExprKind::Number(bits) => if preserve {
                intern_step(v, KindView::NumberLiteral(crate::types::canonical_number_bits(negated_bits(bits))))
            } else {
                (v, Some(TypeId::from_index(7)))
            },
            _ => (v, None),
        },
        ExprKind::String(value) => if preserve {
            intern_step(v, KindView::StringLiteral(value@))
        } else {
            (v, Some(TypeId::from_index(9)))
        },
        ExprKind::Template => (v, Some(TypeId::from_index(9))),
        ExprKind::Identifier { name, symbol } => if name@ == "undefined"@ {
            (v, Some(TypeId::from_index(4)))
        } else {
            (v, symbol_type_of(c.symbol_types, symbol))
        },
        ExprKind::Call(call) => match call_signature(c.function_signatures, &call) {
            Some(id) => if id.idx() < c.returns.len() {
                (v, Some(c.returns[id.idx() as int]))
            } else {
                (v, None)
            },
            None => (v, None),
        },
        ExprKind::Array(elements) => {
            let (v1, et) = match target {
                Some(t) => array_element_target(v, t),
                None => (v, None),
            };
            let (v2, ids) = element_list(c, v1, elements@, et);
            match ids {
                Some(ids) => {
                    let (v3, e) = union_step(v2, ids);
                    match e {
                        Some(e) => intern_step(v3, KindView::Array(e)),
                        None => (v3, None),
                    }
                },
                None => (v2, None),
            }
        },
        ExprKind::Object(members) => {
            let (v1, ps) = member_list(c, v, members@, target);
            match ps {
                Some(ps) => intern_step(v1, KindView::Object(ps)),
                None => (v1, None),
            }
        },
        ExprKind::Parenthesized(inner) => expr_type(c, v, *inner, target),
        ExprKind::Other => (v, None),
    }
}

/// The types of the elements of an array literal, in order, stopping at
/// the first spread, hole or unsupported element.
pub open spec fn element_list(c: ExprContext, v: Seq<KindView>, elements: Seq<ArrayElement>, target: Option<TypeId>) -> (
    Seq<KindView>,
    Option<Seq<TypeId>>,
)
    decreases elements, 0int,
{
    if elements.len() == 0 {
        (v, Some(Seq::empty()))
    } else {
        let (v1, ids) = element_list(c, v, elements.drop_last(), target);
        match ids {
            None => (v1, None),
            Some(ids) => match elements.last() {
                ArrayElement::Expression(e) => {
                    let (v2, t) = expr_type(c, v1, e, target);
                    match t {
                        Some(t) => (v2, Some(ids.push(t))),
                        None => (v2, None),
                    }
                },
                ArrayElement::Other => (v1, None),
            },
        }
    }
}

/// The properties of an object literal, in order, each typed against its
/// contextual property type, stopping at the first member that is not a
/// statically named, non-computed, non-method property with a supported
/// value.
pub open spec fn member_list(c: ExprContext, v: Seq<KindView>, members: Seq<ObjectMember>, target: Option<TypeId>) -> (
    Seq<KindView>,
    Option<Seq<crate::types::PropertyView>>,
)
    decreases members, 0int,
{
    if members.len() == 0 {
        (v, Some(Seq::empty()))
    } else {
        let (v1, ps) = member_list(c, v, members.drop_last(), target);
        match ps {
            None => (v1, None),
            Some(ps) => match members.last() {
                ObjectMember::Property(p) => if p.computed || p.method || p.name is None {
                    (v1, None)
                } else {
                    let name = p.name->Some_0@;
                    let (v2, pt) = match target {
                        Some(t) => property_target(v1, t, name),
                        None => (v1, None),
                    };
                    let (v3, t) = expr_type(c, v2, p.value, pt);
                    match t {
                        Some(t) => (
                            v3,
                            Some(ps.push(crate::types::PropertyView { name, type_id: t, optional: false })),
                        ),
                        None => (v3, None),
                    }
                },
                ObjectMember::Other => (v1, None),
            },
        }
    }
}

/// The first property named `name` is the one `find_property` finds.
proof fn lemma_first_property(ps: Seq<ObjectTypeProperty>, name: Seq<char>, j: Option<usize>)
    requires
        match j {
            Some(k) => k < ps.len() && ps[k as int].name@ == name && forall|m: int|
                0 <= m < k ==> ps[m].name@ != name,
            None => forall|m: int| 0 <= m < ps.len() ==> ps[m].name@ != name,
        },
    ensures
        first_property_type(properties_view(ps), name) == match j {
            Some(k) => Some(ps[k as int].type_id),
            None => None::<TypeId>,
        },
    decreases ps.len(),
{
    let pv = properties_view(ps);
    if ps.len() > 0 {
        assert(pv[0] == ps[0]@);
        assert(pv.drop_first() =~= properties_view(ps.drop_first()));
        match j {
            Some(k) => {
                if k > 0 {
                    assert(ps[0].name@ != name);
                    let rest = ps.drop_first();
                    assert forall|m: int| 0 <= m < (k - 1) implies rest[m].name@ != name by {
                        assert(rest[m] == ps[m + 1]);
                    }
                    assert(rest[k - 1] == ps[k as int]);
                    lemma_first_property(rest, name, Some((k - 1) as usize));
                }
            },
            None => {
                let rest = ps.drop_first();
                assert forall|m: int| 0 <= m < rest.len() implies rest[m].name@ != name by {
                    assert(rest[m] == ps[m + 1]);
                }
                lemma_first_property(rest, name, None);
            },
        }
    }
}

/// The index of the first property named `name`.
pub open spec fn first_property_index(ps: Seq<crate::types::PropertyView>, name: Seq<char>) -> Option<int>
    decreases ps.len(),
{
    if ps.len() == 0 {
        None
    } else if ps[0].name == name {
        Some(0)
    } else {
        match first_property_index(ps.drop_first(), name) {
            Some(k) => Some(k + 1),
            None => None,
        }
    }
}

/// The first property named `name` is the one `find_property` finds.
proof fn lemma_first_property_index(ps: Seq<ObjectTypeProperty>, name: Seq<char>, j: Option<usize>)
    requires
        match j {
            Some(k) => k < ps.len() && ps[k as int].name@ == name && forall|m: int|
                0 <= m < k ==> ps[m].name@ != name,
            None => forall|m: int| 0 <= m < ps.len() ==> ps[m].name@ != name,
        },
    ensures
        first_property_index(properties_view(ps), name) == match j {
            Some(k) => Some(k as int),
            None => None::<int>,
        },
    decreases ps.len(),
{
    let pv = properties_view(ps);
    if ps.len() > 0 {
        assert(pv[0] == ps[0]@);
        assert(pv.drop_first() =~= properties_view(ps.drop_first()));
        match j {
            Some(k) => {
                if k > 0 {
                    assert(ps[0].name@ != name);
                    let rest = ps.drop_first();
                    assert forall|m: int| 0 <= m < (k - 1) implies rest[m].name@ != name by {
                        assert(rest[m] == ps[m + 1]);
                    }
                    assert(rest[k - 1] == ps[k as int]);
                    lemma_first_property_index(rest, name, Some((k - 1) as usize));
                }
            },
            None => {
                let rest = ps.drop_first();
                assert forall|m: int| 0 <= m < rest.len() implies rest[m].name@ != name by {
                    assert(rest[m] == ps[m + 1]);
                }
                lemma_first_property_index(rest, name, None);
            },
        }
    }
}

/// The text that names the type at `target` after the annotation `node`:
/// a plain type reference by its source text, a parenthesized annotation by
/// its contents, and an object type literal member by member, each member
/// by the declared property of its name; nothing for other annotations.
pub open spec fn annotation_text_pieces(v: Seq<KindView>, node: TypeNode, target: TypeId) -> Option<Seq<PieceView>>
    decreases node, 1int,
{
    match node.kind {
        TypeNodeKind::Reference { arguments: None, .. } => Some(seq![PieceView::Text(node.text@)]),
        TypeNodeKind::Parenthesized(inner) => annotation_text_pieces(v, *inner, target),
        TypeNodeKind::TypeLiteral(members) => if valid_id(v, target) && v[target.idx() as int] is Object {
            match literal_members_pieces(v, members@, v[target.idx() as int]->Object_0) {
                Some(body) => Some(seq![PieceView::Text("{ "@)] + body + seq![PieceView::Text("}"@)]),
                None => None,
            }
        } else {
            None
        },
        _ => None,
    }
}

/// The members of an object type literal named one by one against the
/// declared properties `ps`.
pub open spec fn literal_members_pieces(v: Seq<KindView>, members: Seq<TypeMember>, ps: Seq<crate::types::PropertyView>) -> Option<
    Seq<PieceView>,
>
    decreases members, 0int,
{
    if members.len() == 0 {
        Some(Seq::empty())
    } else {
        match literal_members_pieces(v, members.drop_last(), ps) {
            None => None,
            Some(prefix) => match members.last() {
                TypeMember::Property(m) => if m.name is None || m.annotation is None {
                    None
                } else {
                    match first_property_index(ps, m.name->Some_0@) {
                        None => None,
                        Some(k) => {
                            let p = ps[k];
                            let ty = match annotation_text_pieces(v, m.annotation->Some_0, p.type_id) {
                                Some(t) => t,
                                None => display_pieces(v, p.type_id),
                            };
                            Some(
                                prefix + seq![
                                    PieceView::Text(
                                        p.name + (if p.optional {
                                            seq!['?']
                                        } else {
                                            Seq::empty()
                                        }) + ": "@,
                                    ),
                                ] + ty + (if p.optional && !crate::types::includes_undefined(v, p.type_id) {
                                    seq![PieceView::Text(" | undefined"@)]
                                } else {
                                    Seq::empty()
                                }) + seq![PieceView::Text("; "@)],
                            )
                        },
                    }
                },
                TypeMember::Other => None,
            },
        }
    }
}

/// How a diagnostic names a target: by the text of its annotation where
/// that names it, else by rendering the type.
pub open spec fn target_pieces(v: Seq<KindView>, annotation: Option<TypeNode>, target: TypeId) -> Seq<PieceView> {
    match annotation {
        Some(a) => match annotation_text_pieces(v, a, target) {
            Some(p) => p,
            None => display_pieces(v, target),
        },
        None => display_pieces(v, target),
    }
}

/// Once a member cannot be named, the literal is not named member by member.
proof fn lemma_literal_members_stop(v: Seq<KindView>, members: Seq<TypeMember>, ps: Seq<crate::types::PropertyView>, i: int)
    requires
        0 <= i <= members.len(),
        literal_members_pieces(v, members.take(i), ps) is None,
    ensures
        literal_members_pieces(v, members, ps) is None,
    decreases members.len() - i,
{
    if i < members.len() {
        let d1 = members.drop_last();
        assert(d1.take(i) =~= members.take(i));
        lemma_literal_members_stop(v, d1, ps, i);
    } else {
        assert(members.take(i) =~= members);
    }
}

/// The members of the object type an annotation spells out, seen through
/// parentheses, interfaces and aliases, following at most `remaining` names.
pub open spec fn annotation_members(d: Declarations, node: TypeNode, remaining: nat) -> Option<Vec<TypeMember>>
    decreases remaining, node,
{
    match node.kind {
        TypeNodeKind::TypeLiteral(members) => Some(members),
        TypeNodeKind::Reference { name, arguments: None } => if name is None || remaining == 0 {
            None
        } else {
            match last_named(names_of(d.interfaces), name->Some_0@) {
                Some(i) => Some(*d.interfaces[i].1),
                None => match last_named(names_of(d.aliases), name->Some_0@) {
                    Some(i) => annotation_members(d, *d.aliases[i].1, (remaining - 1) as nat),
                    None => None,
                },
            }
        },
        TypeNodeKind::Parenthesized(inner) => annotation_members(d, *inner, remaining),
        _ => None,
    }
}

/// `a + b`, or `usize::MAX` when that is larger.
pub open spec fn saturating_sum(a: nat, b: nat) -> nat {
    if a + b > usize::MAX {
        usize::MAX as nat
    } else {
        a + b
    }
}

/// The annotation of the first property named `name` that has one.
pub open spec fn first_annotated(members: Seq<TypeMember>, name: Seq<char>) -> Option<TypeNode>
    decreases members.len(),
{
    if members.len() == 0 {
        None
    } else {
        match members[0] {
            TypeMember::Property(p) => if p.name is Some && p.name->Some_0@ == name && p.annotation is Some {
                p.annotation
            } else {
                first_annotated(members.drop_first(), name)
            },
            TypeMember::Other => first_annotated(members.drop_first(), name),
        }
    }
}

/// The annotation of property `name` in the object type an annotation
/// spells out.
pub open spec fn property_annotation(d: Declarations, node: TypeNode, name: Seq<char>) -> Option<TypeNode> {
    let remaining = saturating_sum(saturating_sum(d.aliases.len(), d.interfaces.len()), 1);
    match annotation_members(d, node, remaining) {
        Some(members) => first_annotated(members@, name),
        None => None,
    }
}

/// An annotation with parentheses and aliases seen through, following at
/// most `remaining` aliases.
pub open spec fn resolved_annotation(d: Declarations, node: TypeNode, remaining: nat) -> Option<TypeNode>
    decreases remaining, node,
{
    match node.kind {
        TypeNodeKind::Reference { name, arguments: None } => if name is None {
            Some(node)
        } else if remaining == 0 {
            None
        } else {
            match last_named(names_of(d.aliases), name->Some_0@) {
                Some(i) => resolved_annotation(d, *d.aliases[i].1, (remaining - 1) as nat),
                None => None,
            }
        },
        TypeNodeKind::Parenthesized(inner) => resolved_annotation(d, *inner, remaining),
        _ => Some(node),
    }
}

/// The element annotation of an array annotation, seen through aliases.
pub open spec fn element_annotation_of(d: Declarations, node: TypeNode) -> Option<TypeNode> {
    match resolved_annotation(d, node, d.aliases.len()) {
        Some(resolved) => match resolved.kind {
            TypeNodeKind::Array(element) => Some(*element),
            TypeNodeKind::Reference { name, arguments } => if is_generic_array(name, arguments) {
                Some(arguments->Some_0@[0])
            } else {
                None
            },
            _ => None,
        },
        None => None,
    }
}

/// What checking `expr` against `target` reports when its type is not
/// assignable: one TS2322 diagnostic at `anchor` (else at the expression)
/// naming the expression's type, widened for a primitive target, and the
/// target as its annotation names it.
pub open spec fn mismatch_facts(
    c: ExprContext,
    v: Seq<KindView>,
    expr: Expr,
    target: TypeId,
    annotation: Option<TypeNode>,
    anchor: Option<TextRange>,
) -> (Seq<KindView>, Option<DiagnosticFacts>) {
    let (v1, actual) = expr_type(c, v, expr, Some(target));
    match actual {
        None => (v1, None),
        Some(a) => if crate::relations::assignable(v1, a, target) {
            (v1, None)
        } else {
            (
                v1,
                Some(
                    DiagnosticFacts {
                        code: "TS2322"@,
                        message: not_assignable_message(
                            display_pieces(v1, diagnostic_source(v1, a, target)),
                            target_pieces(v1, annotation, target),
                        ),
                        range: Some(
                            match anchor {
                                Some(x) => x,
                                None => expr.span,
                            },
                        ),
                    },
                ),
            )
        },
    }
}

/// An optional annotation reference as an optional annotation.
pub open spec fn opt_node(annotation: Option<&TypeNode>) -> Option<TypeNode> {
    match annotation {
        Some(a) => Some(*a),
        None => None,
    }
}

/// An optional diagnostic as a list.
pub open spec fn optional_facts(m: Option<DiagnosticFacts>) -> Seq<DiagnosticFacts> {
    match m {
        Some(f) => seq![f],
        None => Seq::empty(),
    }
}

/// Mismatches of an object literal's first `n` property values against the
/// contextual property types of `target`, each at its key; nothing when a
/// member is a spread or has no static name.
pub open spec fn union_property_checks(
    c: ExprContext,
    v: Seq<KindView>,
    members: Seq<ObjectMember>,
    target: TypeId,
    n: nat,
) -> (Seq<KindView>, Option<Seq<DiagnosticFacts>>)
    decreases n,
{
    if n > members.len() {
        (v, None)
    } else if n == 0 {
        (v, Some(Seq::empty()))
    } else {
        let (v1, ds) = union_property_checks(c, v, members, target, (n - 1) as nat);
        match ds {
            None => (v1, None),
            Some(ds) => match members[n - 1] {
                ObjectMember::Property(p) => if p.name is None {
                    (v1, None)
                } else {
                    let (v2, pt) = property_target(v1, target, p.name->Some_0@);
                    match pt {
                        None => (v2, Some(ds)),
                        Some(t) => {
                            let (v3, m) = mismatch_facts(c, v2, p.value, t, None, Some(p.key_span));
                            (v3, Some(ds + optional_facts(m)))
                        },
                    }
                },
                ObjectMember::Other => (v1, None),
            },
        }
    }
}

/// Once a member stops the property checks, later members are not checked.
proof fn lemma_union_property_checks_stop(c: ExprContext, v: Seq<KindView>, members: Seq<ObjectMember>, target: TypeId, i: nat, n: nat)
    requires
        i <= n <= members.len(),
        union_property_checks(c, v, members, target, i).1 is None,
    ensures
        union_property_checks(c, v, members, target, n) == union_property_checks(c, v, members, target, i),
    decreases n - i,
{
    if n > i {
        lemma_union_property_checks_stop(c, v, members, target, i, (n - 1) as nat);
    }
}

/// What an optional list of checker diagnostics says.
pub open spec fn facts_opt(r: Option<Vec<CheckDiagnostic>>) -> Option<Seq<DiagnosticFacts>> {
    match r {
        Some(ds) => Some(facts_of(ds@)),
        None => None,
    }
}

proof fn lemma_array_structural_unfold(c: ExprContext, d: Declarations, v: Seq<KindView>, expr: Expr, element: TypeId, annotation: Option<TypeNode>)
    requires
        expr.kind is Array,
    ensures
        array_structural_facts(c, d, v, expr, element, annotation) == element_checks(
            c,
            d,
            v,
            expr.kind->Array_0@,
            element,
            match annotation {
                Some(a) => element_annotation_of(d, a),
                None => None,
            },
            expr.kind->Array_0@.len(),
        ),
{
}

proof fn lemma_object_structural_unfold(
    c: ExprContext,
    d: Declarations,
    v: Seq<KindView>,
    expr: Expr,
    target: TypeId,
    ps: Seq<crate::types::PropertyView>,
    annotation: Option<TypeNode>,
    anchor: Option<TextRange>,
)
    requires
        expr.kind is Object,
        plain_members(expr.kind->Object_0@),
    ensures
        object_structural_facts(c, d, v, expr, target, ps, annotation, anchor) == ({
            let members = expr.kind->Object_0@;
            let (v1, head) = missing_head(c, v, expr, target, ps, members, annotation, anchor);
            match head {
                None => (v1, None),
                Some(h) => {
                    let (v2, rest) = member_checks(c, d, v1, members, target, ps, annotation, members.len());
                    match rest {
                        None => (v2, None),
                        Some(r) => (v2, Some(h + r)),
                    }
                },
            }
        }),
{
}

proof fn lemma_union_structural_unfold(
    c: ExprContext,
    d: Declarations,
    v: Seq<KindView>,
    expr: Expr,
    target: TypeId,
    annotation: Option<TypeNode>,
    anchor: Option<TextRange>,
)
    ensures
        union_structural_facts(c, d, v, expr, target, annotation, anchor) == (match expr.kind {
            ExprKind::Object(ms) => {
                let (v1, ds) = union_property_checks(c, v, ms@, target, ms@.len());
                match ds {
                    None => (v1, None),
                    Some(ds) => if ds.len() > 0 {
                        (v1, Some(ds))
                    } else {
                        union_candidate_facts(c, d, v1, expr, target, annotation, anchor)
                    },
                }
            },
            _ => union_candidate_facts(c, d, v, expr, target, annotation, anchor),
        }),
        union_candidate_facts(c, d, v, expr, target, annotation, anchor) == ({
            let cands = candidate_members(v, v[target.idx() as int]->Union_0, expr.kind is Object, expr.kind is Array);
            let (v2, best, done) = candidate_checks(c, d, v, expr, cands, anchor, cands.len());
            match done {
                Some(ds) => (v2, Some(ds)),
                None => match best {
                    Some(b) => (v2, Some(b)),
                    None => {
                        let (v3, m) = mismatch_facts(c, v2, expr, target, annotation, anchor);
                        (v3, Some(optional_facts(m)))
                    },
                },
            }
        }),
{
}

/// Once a candidate accepts the literal, later candidates are not tried.
proof fn lemma_candidate_checks_done(
    c: ExprContext,
    d: Declarations,
    v: Seq<KindView>,
    expr: Expr,
    cands: Seq<TypeId>,
    anchor: Option<TextRange>,
    i: nat,
    n: nat,
)
    requires
        1 <= i <= n <= cands.len(),
        candidate_checks(c, d, v, expr, cands, anchor, i).2 is Some,
    ensures
        candidate_checks(c, d, v, expr, cands, anchor, n) == candidate_checks(c, d, v, expr, cands, anchor, i),
    decreases n - i,
{
    if n > i {
        lemma_candidate_checks_done(c, d, v, expr, cands, anchor, i, (n - 1) as nat);
    }
}

/// Once a property stops the member checks, later properties are not checked.
proof fn lemma_member_checks_stop(
    c: ExprContext,
    d: Declarations,
    v: Seq<KindView>,
    members: Seq<ObjectMember>,
    target: TypeId,
    ps: Seq<crate::types::PropertyView>,
    annotation: Option<TypeNode>,
    i: nat,
    n: nat,
)
    requires
        i <= n <= members.len(),
        member_checks(c, d, v, members, target, ps, annotation, i).1 is None,
    ensures
        member_checks(c, d, v, members, target, ps, annotation, n) == member_checks(c, d, v, members, target, ps, annotation, i),
    decreases n - i,
{
    if n > i {
        lemma_member_checks_stop(c, d, v, members, target, ps, annotation, i, (n - 1) as nat);
    }
}

/// Once an element stops the element checks, later elements are not checked.
proof fn lemma_element_checks_stop(
    c: ExprContext,
    d: Declarations,
    v: Seq<KindView>,
    elements: Seq<ArrayElement>,
    element: TypeId,
    annotation: Option<TypeNode>,
    i: nat,
    n: nat,
)
    requires
        i <= n <= elements.len(),
        element_checks(c, d, v, elements, element, annotation, i).1 is None,
    ensures
        element_checks(c, d, v, elements, element, annotation, n) == element_checks(c, d, v, elements, element, annotation, i),
    decreases n - i,
{
    if n > i {
        lemma_element_checks_stop(c, d, v, elements, element, annotation, i, (n - 1) as nat);
    }
}

/// Whether a member of an object literal is a property named `name`.
pub open spec fn member_named(m: ObjectMember, name: Seq<char>) -> bool {
    match m {
        ObjectMember::Property(p) => p.name is Some && p.name->Some_0@ == name,
        ObjectMember::Other => false,
    }
}

/// Whether some property of an object literal is named `name`.
pub open spec fn named_in(members: Seq<ObjectMember>, name: Seq<char>) -> bool {
    exists|i: int| 0 <= i < members.len() && member_named(#[trigger] members[i], name)
}

/// Whether a member of an object literal is a property that is neither
/// computed nor a method.
pub open spec fn plain_member(m: ObjectMember) -> bool {
    match m {
        ObjectMember::Property(p) => !p.computed && !p.method,
        ObjectMember::Other => false,
    }
}

/// The positions among the first `n` declared properties of the required
/// ones that no property of the object literal names.
pub open spec fn missing_upto(ps: Seq<crate::types::PropertyView>, members: Seq<ObjectMember>, n: nat) -> Seq<int>
    decreases n,
{
    if n == 0 || n > ps.len() {
        Seq::empty()
    } else {
        let rest = missing_upto(ps, members, (n - 1) as nat);
        if !ps[n - 1].optional && !named_in(members, ps[n - 1].name) {
            rest.push(n - 1)
        } else {
            rest
        }
    }
}

/// Whether every member of an object literal is a property that is
/// neither computed nor a method.
pub open spec fn plain_members(members: Seq<ObjectMember>) -> bool {
    forall|i: int| 0 <= i < members.len() ==> plain_member(#[trigger] members[i])
}

/// The names of the properties at `missing`, separated by `, `.
pub open spec fn joined_names(ps: Seq<crate::types::PropertyView>, missing: Seq<int>) -> Seq<char>
    decreases missing.len(),
{
    if missing.len() == 0 {
        Seq::empty()
    } else {
        joined_names(ps, missing.drop_last()) + (if missing.len() > 1 {
            ", "@
        } else {
            Seq::empty()
        }) + ps[missing.last()].name
    }
}

/// The diagnostic for required properties that an object literal of type
/// `actual` lacks: TS2741 naming the one, or TS2739 listing several.
pub open spec fn missing_facts(
    v: Seq<KindView>,
    ps: Seq<crate::types::PropertyView>,
    missing: Seq<int>,
    actual: TypeId,
    expected: Seq<PieceView>,
    range: TextRange,
) -> DiagnosticFacts {
    if missing.len() == 1 {
        DiagnosticFacts {
            code: "TS2741"@,
            message: seq![PieceView::Text("Property '"@), PieceView::Text(ps[missing[0]].name), PieceView::Text("' is missing in type '"@)]
                + display_pieces(v, actual) + seq![PieceView::Text("' but required in type '"@)] + expected + seq![
                PieceView::Text("'."@),
            ],
            range: Some(range),
        }
    } else {
        DiagnosticFacts {
            code: "TS2739"@,
            message: seq![PieceView::Text("Type '"@)] + display_pieces(v, actual) + seq![
                PieceView::Text("' is missing the following properties from type '"@),
            ] + expected + seq![PieceView::Text("': "@), PieceView::Text(joined_names(ps, missing))],
            range: Some(range),
        }
    }
}

/// The union members a literal is checked against structurally: the
/// object members for an object literal, the array members for an array
/// literal.
pub open spec fn candidate_members(v: Seq<KindView>, ms: Seq<TypeId>, want_object: bool, want_array: bool) -> Seq<TypeId>
    decreases ms.len(),
{
    if ms.len() == 0 {
        Seq::empty()
    } else {
        let rest = candidate_members(v, ms.drop_last(), want_object, want_array);
        let m = ms.last();
        if valid_id(v, m) && ((want_object && v[m.idx() as int] is Object) || (want_array && v[m.idx() as int] is Array)) {
            rest.push(m)
        } else {
            rest
        }
    }
}

/// The structural diagnostics of checking `expr` against `target`, whose
/// annotation (if any) is `annotation`: through union members, object
/// properties and array elements, each pointing at the syntax it
/// concerns; nothing when the literal's shape is not supported.
pub open spec fn structural_facts(
    c: ExprContext,
    d: Declarations,
    v: Seq<KindView>,
    expr: Expr,
    target: TypeId,
    annotation: Option<TypeNode>,
    anchor: Option<TextRange>,
) -> (Seq<KindView>, Option<Seq<DiagnosticFacts>>)
    decreases expr, if is_union_at(v, target) {
        5int
    } else {
        1int
    }, 0int,
{
    match expr.kind {
        ExprKind::Parenthesized(inner) => structural_facts(c, d, v, *inner, target, annotation, anchor),
        _ => if is_union_at(v, target) {
            union_structural_facts(c, d, v, expr, target, annotation, anchor)
        } else if expr.kind is Object && valid_id(v, target) && v[target.idx() as int] is Object {
            object_structural_facts(c, d, v, expr, target, v[target.idx() as int]->Object_0, annotation, anchor)
        } else if expr.kind is Array && valid_id(v, target) && v[target.idx() as int] is Array {
            array_structural_facts(c, d, v, expr, v[target.idx() as int]->Array_0, annotation)
        } else {
            let (v1, m) = mismatch_facts(c, v, expr, target, annotation, anchor);
            (v1, Some(optional_facts(m)))
        },
    }
}

/// Structural diagnostics against a union target: for an object literal,
/// property mismatches against the union's object members come first.
pub open spec fn union_structural_facts(
    c: ExprContext,
    d: Declarations,
    v: Seq<KindView>,
    expr: Expr,
    target: TypeId,
    annotation: Option<TypeNode>,
    anchor: Option<TextRange>,
) -> (Seq<KindView>, Option<Seq<DiagnosticFacts>>)
    decreases expr, 4int, 0int,
{
    match expr.kind {
        ExprKind::Object(ms) => {
            let (v1, ds) = union_property_checks(c, v, ms@, target, ms@.len());
            match ds {
                None => (v1, None),
                Some(ds) => if ds.len() > 0 {
                    (v1, Some(ds))
                } else {
                    union_candidate_facts(c, d, v1, expr, target, annotation, anchor)
                },
            }
        },
        _ => union_candidate_facts(c, d, v, expr, target, annotation, anchor),
    }
}

/// Structural diagnostics against the union members of the literal's
/// shape: none once one accepts it, else those of the member with the
/// fewest, else a plain mismatch against the union.
pub open spec fn union_candidate_facts(
    c: ExprContext,
    d: Declarations,
    v: Seq<KindView>,
    expr: Expr,
    target: TypeId,
    annotation: Option<TypeNode>,
    anchor: Option<TextRange>,
) -> (Seq<KindView>, Option<Seq<DiagnosticFacts>>)
    decreases expr, 3int, 0int,
{
    let cands = candidate_members(v, v[target.idx() as int]->Union_0, expr.kind is Object, expr.kind is Array);
    let (v2, best, done) = candidate_checks(c, d, v, expr, cands, anchor, cands.len());
    match done {
        Some(ds) => (v2, Some(ds)),
        None => match best {
            Some(b) => (v2, Some(b)),
            None => {
                let (v3, m) = mismatch_facts(c, v2, expr, target, annotation, anchor);
                (v3, Some(optional_facts(m)))
            },
        },
    }
}

/// Checking a literal against the first `n` candidate members: the store
/// after, the fewest diagnostics found so far, and the empty list once a
/// candidate accepts the literal.
pub open spec fn candidate_checks(
    c: ExprContext,
    d: Declarations,
    v: Seq<KindView>,
    expr: Expr,
    cands: Seq<TypeId>,
    anchor: Option<TextRange>,
    n: nat,
) -> (Seq<KindView>, Option<Seq<DiagnosticFacts>>, Option<Seq<DiagnosticFacts>>)
    decreases expr, 2int, n,
{
    if n == 0 || n > cands.len() {
        (v, None, None)
    } else {
        let (v1, best, done) = candidate_checks(c, d, v, expr, cands, anchor, (n - 1) as nat);
        if done is Some || is_union_at(v1, cands[n - 1]) {
            (v1, best, done)
        } else {
            let (v2, found) = structural_facts(c, d, v1, expr, cands[n - 1], None, anchor);
            match found {
                None => (v2, best, None),
                Some(ds) => if ds.len() == 0 {
                    (v2, best, Some(ds))
                } else if best is None || ds.len() < best->Some_0.len() {
                    (v2, Some(ds), None)
                } else {
                    (v2, best, None)
                },
            }
        }
    }
}

/// Structural diagnostics of an object literal against an object type with
/// properties `ps`: missing required properties at the anchor, then each
/// property's value against its declared type at its key, or an excess
/// property at its key.
pub open spec fn object_structural_facts(
    c: ExprContext,
    d: Declarations,
    v: Seq<KindView>,
    expr: Expr,
    target: TypeId,
    ps: Seq<crate::types::PropertyView>,
    annotation: Option<TypeNode>,
    anchor: Option<TextRange>,
) -> (Seq<KindView>, Option<Seq<DiagnosticFacts>>)
    decreases expr, 0int, 0int,
{
    match expr.kind {
        ExprKind::Object(ms) => {
            let members = ms@;
            if !plain_members(members) {
                (v, None)
            } else {
                let (v1, head) = missing_head(c, v, expr, target, ps, members, annotation, anchor);
                match head {
                    None => (v1, None),
                    Some(h) => {
                        let (v2, rest) = member_checks(c, d, v1, members, target, ps, annotation, members.len());
                        match rest {
                            None => (v2, None),
                            Some(r) => (v2, Some(h + r)),
                        }
                    },
                }
            }
        },
        _ => (v, None),
    }
}

/// The diagnostic for the required properties that an object literal with
/// `members` lacks, if any, at the anchor (else at the literal): the store
/// after, and nothing when the literal cannot be typed.
pub open spec fn missing_head(
    c: ExprContext,
    v: Seq<KindView>,
    expr: Expr,
    target: TypeId,
    ps: Seq<crate::types::PropertyView>,
    members: Seq<ObjectMember>,
    annotation: Option<TypeNode>,
    anchor: Option<TextRange>,
) -> (Seq<KindView>, Option<Seq<DiagnosticFacts>>) {
    let missing = missing_upto(ps, members, ps.len());
    let range = match anchor {
        Some(x) => x,
        None => expr.span,
    };
    if missing.len() > 0 {
        let (v1, actual) = expr_type(c, v, expr, Some(target));
        match actual {
            None => (v1, None),
            Some(a) => (v1, Some(seq![missing_facts(v1, ps, missing, a, target_pieces(v1, annotation, target), range)])),
        }
    } else {
        (v, Some(Seq::empty()))
    }
}

/// Checking the first `n` properties of an object literal against the
/// declared properties `ps`.
pub open spec fn member_checks(
    c: ExprContext,
    d: Declarations,
    v: Seq<KindView>,
    members: Seq<ObjectMember>,
    target: TypeId,
    ps: Seq<crate::types::PropertyView>,
    annotation: Option<TypeNode>,
    n: nat,
) -> (Seq<KindView>, Option<Seq<DiagnosticFacts>>)
    decreases members, 0int, n,
{
    if n > members.len() {
        (v, None)
    } else if n == 0 {
        (v, Some(Seq::empty()))
    } else {
        let (v1, ds) = member_checks(c, d, v, members, target, ps, annotation, (n - 1) as nat);
        match ds {
            None => (v1, None),
            Some(ds) => match members[n - 1] {
                ObjectMember::Property(src) => if src.name is None {
                    (v1, None)
                } else {
                    let name = src.name->Some_0@;
                    match first_property_index(ps, name) {
                        Some(k) => {
                            let pa = match annotation {
                                Some(a) => property_annotation(d, a, ps[k].name),
                                None => None,
                            };
                            let (v2, nested) = structural_facts(c, d, v1, src.value, ps[k].type_id, pa, Some(src.key_span));
                            match nested {
                                None => (v2, None),
                                Some(ns) => (v2, Some(ds + ns)),
                            }
                        },
                        None => (
                            v1,
                            Some(
                                ds.push(
                                    DiagnosticFacts {
                                        code: "TS2353"@,
                                        message: seq![
                                            PieceView::Text(
                                                "Object literal may only specify known properties, and '"@ + name
                                                    + "' does not exist in type '"@,
                                            ),
                                        ] + target_pieces(v1, annotation, target) + seq![PieceView::Text("'."@)],
                                        range: Some(src.key_span),
                                    },
                                ),
                            ),
                        ),
                    }
                },
                ObjectMember::Other => (v1, None),
            },
        }
    }
}

/// Structural diagnostics of an array literal against an array type: each
/// element against the element type.
pub open spec fn array_structural_facts(
    c: ExprContext,
    d: Declarations,
    v: Seq<KindView>,
    expr: Expr,
    element: TypeId,
    annotation: Option<TypeNode>,
) -> (Seq<KindView>, Option<Seq<DiagnosticFacts>>)
    decreases expr, 0int, 0int,
{
    match expr.kind {
        ExprKind::Array(es) => {
            let ea = match annotation {
                Some(a) => element_annotation_of(d, a),
                None => None,
            };
            element_checks(c, d, v, es@, element, ea, es@.len())
        },
        _ => (v, None),
    }
}

/// Checking the first `n` elements of an array literal against `element`.
pub open spec fn element_checks(
    c: ExprContext,
    d: Declarations,
    v: Seq<KindView>,
    elements: Seq<ArrayElement>,
    element: TypeId,
    annotation: Option<TypeNode>,
    n: nat,
) -> (Seq<KindView>, Option<Seq<DiagnosticFacts>>)
    decreases elements, 0int, n,
{
    if n > elements.len() {
        (v, None)
    } else if n == 0 {
        (v, Some(Seq::empty()))
    } else {
        let (v1, ds) = element_checks(c, d, v, elements, element, annotation, (n - 1) as nat);
        match ds {
            None => (v1, None),
            Some(ds) => match elements[n - 1] {
                ArrayElement::Expression(item) => {
                    let (v2, nested) = structural_facts(c, d, v1, item, element, annotation, None);
                    match nested {
                        None => (v2, None),
                        Some(ns) => (v2, Some(ds + ns)),
                    }
                },
                ArrayElement::Other => (v1, None),
            },
        }
    }
}

/// Once an element is unsupported, the rest of the array is not typed.
proof fn lemma_element_list_stops(c: ExprContext, v: Seq<KindView>, elements: Seq<ArrayElement>, target: Option<TypeId>, i: int)
    requires
        0 <= i <= elements.len(),
        element_list(c, v, elements.take(i), target).1 is None,
    ensures
        element_list(c, v, elements, target) == element_list(c, v, elements.take(i), target),
    decreases elements.len() - i,
{
    if i == elements.len() {
        assert(elements.take(i) =~= elements);
    } else {
        let d1 = elements.drop_last();
        assert(d1.take(i) =~= elements.take(i));
        lemma_element_list_stops(c, v, d1, target, i);
    }
}

/// Once a member is unsupported, the rest of the object is not typed.
proof fn lemma_member_list_stops(c: ExprContext, v: Seq<KindView>, members: Seq<ObjectMember>, target: Option<TypeId>, i: int)
    requires
        0 <= i <= members.len(),
        member_list(c, v, members.take(i), target).1 is None,
    ensures
        member_list(c, v, members, target) == member_list(c, v, members.take(i), target),
    decreases members.len() - i,
{
    if i == members.len() {
        assert(members.take(i) =~= members);
    } else {
        let d1 = members.drop_last();
        assert(d1.take(i) =~= members.take(i));
        lemma_member_list_stops(c, v, d1, target, i);
    }
}

/// `Array<T>` is a spelling of `T[]`: both denote the same type and leave
/// the store alike.
pub proof fn lemma_generic_array_is_array(d: Declarations, v: Seq<KindView>, r: Seq<Seq<char>>, generic: TypeNode, array: TypeNode)
    requires
        generic.kind matches TypeNodeKind::Reference { name, arguments } && is_generic_array(name, arguments),
        array.kind is Array,
        generic.kind->arguments->Some_0@[0] == *array.kind->Array_0,
    ensures
        annotation_type(d, v, r, generic) == annotation_type(d, v, r, array),
{
}

/// Parentheses around an annotation do not change what it denotes.
pub proof fn lemma_parentheses_are_transparent(d: Declarations, v: Seq<KindView>, r: Seq<Seq<char>>, node: TypeNode)
    requires
        node.kind is Parenthesized,
    ensures
        annotation_type(d, v, r, node) == annotation_type(d, v, r, *node.kind->Parenthesized_0),
{
}

/// A reference to a type alias denotes what the alias's annotation
/// denotes, resolved while the alias's name is being resolved; the last
/// alias of a name is the one that counts.
pub proof fn lemma_alias_is_transparent(d: Declarations, v: Seq<KindView>, r: Seq<Seq<char>>, node: TypeNode, i: int)
    requires
        node.kind matches TypeNodeKind::Reference { name: Some(n), arguments: None } && !r.contains(n@) && r.len() < declared_names(d).len() && last_named(names_of(d.aliases), n@) == Some(i),
    ensures
        annotation_type(d, v, r, node) == annotation_type(d, v, r.push(d.aliases[i].0@), *d.aliases[i].1),
{
    let n = node.kind->name->Some_0;
    lemma_last_named(names_of(d.aliases), n@);
    assert(names_of(d.aliases)[i] == d.aliases[i].0@);
}

/// A reference to a name that is being resolved, such as an alias that
/// refers back to itself, denotes nothing and adds nothing to the store.
pub proof fn lemma_cyclic_reference_is_unresolved(d: Declarations, v: Seq<KindView>, r: Seq<Seq<char>>, node: TypeNode)
    requires
        node.kind matches TypeNodeKind::Reference { name: Some(n), arguments: None } && r.contains(n@),
    ensures
        annotation_type(d, v, r, node) == (v, None::<TypeId>),
{
}

/// The literal type that a literal expression denotes: a string, boolean,
/// numeric (negative zero read as zero) or bigint literal's own type.
pub open spec fn literal_type_of(expr: Expr) -> Option<KindView> {
    match expr.kind {
        ExprKind::String(s) => Some(KindView::StringLiteral(s@)),
        ExprKind::Boolean(b) => Some(KindView::BooleanLiteral(b)),
        ExprKind::BigInt(x) => Some(KindView::BigIntLiteral(x@)),
        ExprKind::Number(bits) => Some(KindView::NumberLiteral(crate::types::canonical_number_bits(bits))),
        ExprKind::Negation(operand) => match operand.kind {
            ExprKind::Number(bits) => Some(
                KindView::NumberLiteral(crate::types::canonical_number_bits(negated_bits(bits))),
            ),
            _ => None,
        },
        _ => None,
    }
}

/// Whether an annotation literal and an expression write the same literal.
pub open spec fn same_literal(literal: LiteralType, expr: Expr) -> bool {
    match (literal, expr.kind) {
        (LiteralType::Boolean(a), ExprKind::Boolean(b)) => a == b,
        (LiteralType::Number(a), ExprKind::Number(b)) => a == b,
        (LiteralType::BigInt(a), ExprKind::BigInt(b)) => a@ == b@,
        (LiteralType::String(a), ExprKind::String(b)) => a@ == b@,
        (LiteralType::NegatedNumber(a), ExprKind::Negation(operand)) => operand.kind == ExprKind::Number(a),
        _ => false,
    }
}

/// The primitive kind that a keyword annotation names.
pub open spec fn keyword_kind(keyword: Keyword) -> KindView {
    match keyword {
        Keyword::Any => KindView::Any,
        Keyword::Unknown => KindView::Unknown,
        Keyword::Never => KindView::Never,
        Keyword::Void => KindView::Void,
        Keyword::Undefined => KindView::Undefined,
        Keyword::Null => KindView::Null,
        Keyword::Boolean => KindView::Boolean,
        Keyword::Number => KindView::Number,
        Keyword::BigInt => KindView::BigInt,
        Keyword::String => KindView::String,
    }
}

/// A literal checked against the type of that very literal keeps it: its
/// type is the target itself, the store is unchanged, and it is
/// assignable to the target.
pub proof fn lemma_literal_keeps_its_type(c: ExprContext, v: Seq<KindView>, expr: Expr, target: TypeId)
    requires
        store_wf(v),
        v.len() < 0xFFFF_FFFF,
        valid_id(v, target),
        literal_type_of(expr) == Some(v[target.idx() as int]),
    ensures
        expr_type(c, v, expr, Some(target)) == (v, Some(target)),
        crate::relations::assignable(v, target, target),
{
    broadcast use group_type_id;

    let k = v[target.idx() as int];
    assert(v.contains(k));
    let j = v.index_of(k);
    assert(v[j] == k);
    assert(j == target.idx());
    assert(TypeId::from_index(j as u32).idx() == target.idx());
    assert(TypeId::from_index(j as u32) == target);
}

/// A literal checked against a union with that literal's type among its
/// members keeps its literal type, the member, which is assignable to the
/// union; the store is unchanged.
pub proof fn lemma_literal_in_union_keeps_its_type(
    c: ExprContext,
    v: Seq<KindView>,
    expr: Expr,
    target: TypeId,
    k: int,
)
    requires
        store_wf(v),
        v.len() < 0xFFFF_FFFF,
        valid_id(v, target),
        v[target.idx() as int] is Union,
        0 <= k < v[target.idx() as int]->Union_0.len(),
        literal_type_of(expr) == Some(v[v[target.idx() as int]->Union_0[k].idx() as int]),
    ensures
        expr_type(c, v, expr, Some(target)) == (v, Some(v[target.idx() as int]->Union_0[k])),
        crate::relations::assignable(v, v[target.idx() as int]->Union_0[k], target),
{
    broadcast use group_type_id;

    let ms = v[target.idx() as int]->Union_0;
    let m = ms[k];
    assert(m.idx() < target.idx());
    let kind = v[m.idx() as int];
    assert(v.contains(kind));
    let j = v.index_of(kind);
    assert(v[j] == kind);
    assert(j == m.idx());
    assert(TypeId::from_index(j as u32).idx() == m.idx());
    assert(TypeId::from_index(j as u32) == m);
    assert(v[0] == primitive_kinds()[0]);
    assert(v[1] == primitive_kinds()[1]);
    assert(v[2] == primitive_kinds()[2]);
    assert(crate::types::any_id().idx() == 0);
    assert(crate::types::unknown_id().idx() == 1);
    assert(crate::types::never_id().idx() == 2);
    assert(m != target);
    assert(m != crate::types::any_id() && m != crate::types::never_id());
    assert(target != crate::types::any_id() && target != crate::types::unknown_id());
    lemma_some_assignable_member(v, m, ms, target.idx() as int, k);
}

/// A member of a list, below the bound, is among those it is assignable to.
proof fn lemma_some_assignable_member(v: Seq<KindView>, m: TypeId, targets: Seq<TypeId>, bound: int, k: int)
    requires
        0 <= k < targets.len(),
        targets[k] == m,
        (m.idx() as int) < bound,
    ensures
        crate::relations::some_assignable(v, m, targets, bound),
    decreases targets.len(),
{
    if k < targets.len() - 1 {
        assert(targets.drop_last()[k] == m);
        lemma_some_assignable_member(v, m, targets.drop_last(), bound, k);
    } else {
        assert(targets.last() == m);
        assert(crate::relations::assignable(v, m, m));
    }
}

/// A literal annotation denotes the type of that literal written as an
/// expression: the expression, checked against the annotation's type,
/// keeps that very type.
pub proof fn lemma_literal_annotation_is_the_literal_type(
    d: Declarations,
    c: ExprContext,
    v: Seq<KindView>,
    r: Seq<Seq<char>>,
    node: TypeNode,
    expr: Expr,
)
    requires
        store_wf(v),
        v.len() < 0xFFFF_FFFE,
        node.kind matches TypeNodeKind::Literal(l) && same_literal(l, expr),
    ensures
        ({
            let (v1, t) = annotation_type(d, v, r, node);
            &&& t is Some
            &&& valid_id(v1, t->Some_0)
            &&& literal_type_of(expr) == Some(v1[t->Some_0.idx() as int])
            &&& expr_type(c, v1, expr, t) == (v1, t)
        }),
{
    broadcast use group_type_id;

    let l = node.kind->Literal_0;
    let k = literal_kind(&l)->Some_0;
    lemma_intern_wf(v, k);
    let v1 = interned_view(v, k);
    let t = interned_id(v, k);
    if v.contains(k) {
        let j = v.index_of(k);
        assert(v[j] == k);
    } else {
        assert(v1[v.len() as int] == k);
    }
    assert(v1[t.idx() as int] == k);
    lemma_literal_keeps_its_type(c, v1, expr, t);
}

/// An array literal of one or more literals, each of the element type's
/// literal type, checked against that array type has exactly that type:
/// each element keeps its literal type, their union is the element type,
/// and the array type is found again in the store.
pub proof fn lemma_literal_array_has_its_type(c: ExprContext, v: Seq<KindView>, expr: Expr, target: TypeId)
    requires
        store_wf(v),
        v.len() < 0xFFFF_FFFF,
        valid_id(v, target),
        v[target.idx() as int] is Array,
        expr.kind is Array,
        expr.kind->Array_0@.len() > 0,
        forall|i: int|
            0 <= i < expr.kind->Array_0@.len() ==> (#[trigger] expr.kind->Array_0@[i] matches ArrayElement::Expression(
                x,
            ) && literal_type_of(x) == Some(v[v[target.idx() as int]->Array_0.idx() as int])),
    ensures
        expr_type(c, v, expr, Some(target)) == (v, Some(target)),
{
    broadcast use group_type_id;

    let e = v[target.idx() as int]->Array_0;
    let es = expr.kind->Array_0@;
    assert(e.idx() < target.idx());
    lemma_element_list_literals(c, v, es, e, es.len());
    assert(es.take(es.len() as int) =~= es);
    let ids = Seq::new(es.len(), |i: int| e);
    assert(es[0] matches ArrayElement::Expression(x) && literal_type_of(x) == Some(v[e.idx() as int]));
    assert(v[0] == primitive_kinds()[0]);
    assert(v[1] == primitive_kinds()[1]);
    assert(v[2] == primitive_kinds()[2]);
    assert(crate::types::any_id().idx() == 0);
    assert(crate::types::unknown_id().idx() == 1);
    assert(crate::types::never_id().idx() == 2);
    crate::types::lemma_union_of_one_type(v, ids, e);
    let k = KindView::Array(e);
    assert(v.contains(k));
    let j = v.index_of(k);
    assert(v[j] == k);
    assert(j == target.idx());
    assert(TypeId::from_index(j as u32).idx() == target.idx());
    assert(TypeId::from_index(j as u32) == target);
}

proof fn lemma_element_list_literals(c: ExprContext, v: Seq<KindView>, es: Seq<ArrayElement>, e: TypeId, n: nat)
    requires
        store_wf(v),
        v.len() < 0xFFFF_FFFF,
        valid_id(v, e),
        n <= es.len(),
        forall|i: int|
            0 <= i < es.len() ==> (#[trigger] es[i] matches ArrayElement::Expression(x) && literal_type_of(x) == Some(
                v[e.idx() as int],
            )),
    ensures
        element_list(c, v, es.take(n as int), Some(e)) == (v, Some(Seq::new(n, |i: int| e))),
    decreases n,
{
    if n > 0 {
        lemma_element_list_literals(c, v, es, e, (n - 1) as nat);
        let t = es.take(n as int);
        assert(t.drop_last() =~= es.take(n - 1));
        assert(t.last() == es[n - 1]);
        let x = es[n - 1]->Expression_0;
        lemma_literal_keeps_its_type(c, v, x, e);
        assert(Seq::new(n, |i: int| e) =~= Seq::new((n - 1) as nat, |i: int| e).push(e));
    } else {
        assert(es.take(0) =~= Seq::<ArrayElement>::empty());
        assert(Seq::new(0, |i: int| e) =~= Seq::<TypeId>::empty());
    }
}

/// A keyword annotation denotes the primitive of the same name, and leaves
/// the store as it is.
pub proof fn lemma_keyword_names_its_primitive(d: Declarations, v: Seq<KindView>, r: Seq<Seq<char>>, node: TypeNode)
    requires
        store_wf(v),
        node.kind is Keyword,
    ensures
        annotation_type(d, v, r, node).0 == v,
        annotation_type(d, v, r, node).1 matches Some(id) && valid_id(v, id) && v[id.idx() as int]
            == keyword_kind(node.kind->Keyword_0),
{
    broadcast use group_type_id;

    let k = node.kind->Keyword_0;
    let i = keyword_index(k) as int;
    assert(v[i] == primitive_kinds()[i]);
}

/// Without a literal target, a literal or template expression has the
/// primitive type of its kind: strings and templates `string`, numbers
/// (negated or not) `number`, booleans `boolean`, bigints `bigint`, `null`
/// the null type and `undefined` the undefined type; the store is
/// unchanged.
pub proof fn lemma_expression_primitives(c: ExprContext, v: Seq<KindView>, expr: Expr, target: Option<TypeId>)
    requires
        store_wf(v),
        !(target matches Some(t) && literal_target(v, t)) || expr.kind is Template || expr.kind is Null
            || expr.kind is Identifier,
    ensures
        ({
            let (v1, t) = expr_type(c, v, expr, target);
            let expected = match expr.kind {
                ExprKind::String(_) => Some(KindView::String),
                ExprKind::Template => Some(KindView::String),
                ExprKind::Number(_) => Some(KindView::Number),
                ExprKind::Negation(operand) => if operand.kind is Number {
                    Some(KindView::Number)
                } else {
                    None
                },
                ExprKind::Boolean(_) => Some(KindView::Boolean),
                ExprKind::BigInt(_) => Some(KindView::BigInt),
                ExprKind::Null => Some(KindView::Null),
                ExprKind::Identifier { name, symbol: _ } => if name@ == "undefined"@ {
                    Some(KindView::Undefined)
                } else {
                    None
                },
                _ => None,
            };
            expected is Some ==> (v1 == v && t is Some && valid_id(v, t->Some_0) && v[t->Some_0.idx() as int]
                == expected->Some_0)
        }),
{
    broadcast use group_type_id;

    assert(v[4] == primitive_kinds()[4]);
    assert(v[5] == primitive_kinds()[5]);
    assert(v[6] == primitive_kinds()[6]);
    assert(v[7] == primitive_kinds()[7]);
    assert(v[8] == primitive_kinds()[8]);
    assert(v[9] == primitive_kinds()[9]);
}

/// A mismatched argument never stops the argument checks: as long as
/// every argument so far is an expression, each one is checked, each check
/// only adds to the diagnostics found before it, and an argument whose
/// type is not assignable to its parameter's adds one TS2345 at that
/// argument, while any other adds none.
pub proof fn lemma_every_argument_is_checked(
    c: ExprContext,
    v: Seq<KindView>,
    args: Seq<Argument>,
    params: Seq<(TypeId, Seq<PieceView>)>,
    n: nat,
)
    requires
        n <= args.len(),
        forall|i: int| 0 <= i < n ==> (#[trigger] args[i]).expression is Some,
    ensures
        !argument_checks(c, v, args, params, n).2,
        n > 0 ==> argument_checks(c, v, args, params, (n - 1) as nat).1.is_prefix_of(
            argument_checks(c, v, args, params, n).1,
        ),
        argument_checks(c, v, args, params, n).1.len() <= n,
        n > 0 ==> ({
            let (v1, ds, _) = argument_checks(c, v, args, params, (n - 1) as nat);
            let e = args[n - 1].expression->Some_0;
            let target = params[n - 1].0;
            let (v2, actual) = expr_type(c, v1, e, Some(target));
            let after = argument_checks(c, v, args, params, n).1;
            if actual is Some && !crate::relations::assignable(v2, actual->Some_0, target) {
                &&& after.len() == ds.len() + 1
                &&& after.last().code == "TS2345"@
                &&& after.last().range == Some(e.span)
            } else {
                after == ds
            }
        }),
    decreases n,
{
    if n > 0 {
        lemma_every_argument_is_checked(c, v, args, params, (n - 1) as nat);
        assert(args[n - 1].expression is Some);
        let before = argument_checks(c, v, args, params, (n - 1) as nat).1;
        let after = argument_checks(c, v, args, params, n).1;
        assert(after.subrange(0, before.len() as int) =~= before);
    }
}

/// An object literal whose properties give, in order and once each, the
/// declared (required) properties of an object type, each by a literal of
/// the property's declared literal type, has exactly that object type: each
/// property value is checked against its declared property type, keeps its
/// literal type, and the object type is found again in the store.
pub proof fn lemma_literal_object_has_its_type(
    c: ExprContext,
    v: Seq<KindView>,
    expr: Expr,
    target: TypeId,
)
    requires
        store_wf(v),
        v.len() < 0xFFFF_FFFF,
        valid_id(v, target),
        v[target.idx() as int] is Object,
        expr.kind is Object,
        ({
            let ps = v[target.idx() as int]->Object_0;
            let ms = expr.kind->Object_0@;
            &&& ms.len() == ps.len()
            &&& forall|i: int, j: int| 0 <= i < j < ps.len() ==> ps[i].name != ps[j].name
            &&& forall|i: int|
                0 <= i < ms.len() ==> {
                    &&& #[trigger] ms[i] matches ObjectMember::Property(p)
                    &&& !p.computed && !p.method
                    &&& p.name matches Some(n) && n@ == ps[i].name
                    &&& !ps[i].optional
                    &&& valid_id(v, ps[i].type_id)
                    &&& literal_type_of(p.value) == Some(v[ps[i].type_id.idx() as int])
                }
        }),
    ensures
        expr_type(c, v, expr, Some(target)) == (v, Some(target)),
{
    broadcast use group_type_id;

    let ps = v[target.idx() as int]->Object_0;
    let ms = expr.kind->Object_0@;
    lemma_member_list_literals(c, v, ms, target, ps, ms.len());
    assert(ms.take(ms.len() as int) =~= ms);
    assert(ps.take(ps.len() as int) =~= ps);
    let k = KindView::Object(ps);
    assert(v.contains(k));
    let j = v.index_of(k);
    assert(v[j] == k);
    assert(j == target.idx());
    assert(TypeId::from_index(j as u32).idx() == target.idx());
    assert(TypeId::from_index(j as u32) == target);
    assert(member_list(c, v, ms, Some(target)) == (v, Some(ps)));
}

proof fn lemma_member_list_literals(
    c: ExprContext,
    v: Seq<KindView>,
    ms: Seq<ObjectMember>,
    target: TypeId,
    ps: Seq<crate::types::PropertyView>,
    n: nat,
)
    requires
        store_wf(v),
        v.len() < 0xFFFF_FFFF,
        valid_id(v, target),
        v[target.idx() as int] == KindView::Object(ps),
        n <= ms.len() == ps.len(),
        forall|i: int, j: int| 0 <= i < j < ps.len() ==> ps[i].name != ps[j].name,
        forall|i: int|
            0 <= i < ms.len() ==> {
                &&& #[trigger] ms[i] matches ObjectMember::Property(p)
                &&& !p.computed && !p.method
                &&& p.name matches Some(nm) && nm@ == ps[i].name
                &&& !ps[i].optional
                &&& valid_id(v, ps[i].type_id)
                &&& literal_type_of(p.value) == Some(v[ps[i].type_id.idx() as int])
            },
    ensures
        member_list(c, v, ms.take(n as int), Some(target)) == (v, Some(ps.take(n as int))),
    decreases n,
{
    if n > 0 {
        lemma_member_list_literals(c, v, ms, target, ps, (n - 1) as nat);
        let t = ms.take(n as int);
        assert(t.drop_last() =~= ms.take(n - 1));
        assert(t.last() == ms[n - 1]);
        let i = n - 1;
        let p = ms[i]->Property_0;
        lemma_first_property_type_at(ps, i);
        assert(property_target(v, target, ps[i].name) == (v, Some(ps[i].type_id)));
        lemma_literal_keeps_its_type(c, v, p.value, ps[i].type_id);
        assert(ps[i] == crate::types::PropertyView { name: ps[i].name, type_id: ps[i].type_id, optional: false });
        assert(ps.take(n as int) =~= ps.take(n - 1).push(ps[i]));
    }
}

/// With distinct names, the first property named like the `i`-th is the
/// `i`-th.
proof fn lemma_first_property_type_at(ps: Seq<crate::types::PropertyView>, i: int)
    requires
        0 <= i < ps.len(),
        forall|a: int, b: int| 0 <= a < b < ps.len() ==> ps[a].name != ps[b].name,
    ensures
        first_property_type(ps, ps[i].name) == Some(ps[i].type_id),
    decreases i,
{
    if i > 0 {
        let rest = ps.drop_first();
        assert forall|a: int, b: int| 0 <= a < b < rest.len() implies rest[a].name != rest[b].name by {
            assert(rest[a] == ps[a + 1] && rest[b] == ps[b + 1]);
        }
        assert(ps[0].name != ps[i].name);
        assert(rest[i - 1] == ps[i]);
        lemma_first_property_type_at(rest, i - 1);
    }
}

/// Whether checking `expr` against `target` goes through structural
/// diagnostics.
pub open spec fn needs_structural(v: Seq<KindView>, expr: Expr, target: TypeId) -> bool
    decreases expr,
{
    match expr.kind {
        ExprKind::Object(_) => target_has(v, target, |k: KindView| is_object(k)),
        ExprKind::Array(_) => target_has(v, target, |k: KindView| is_array(k)),
        ExprKind::Parenthesized(inner) => needs_structural(v, *inner, target),
        _ => false,
    }
}

/// The elaboration of an array assignability failure, one sentence per
/// level of array nesting.
pub open spec fn relation_detail_pieces(v: Seq<KindView>, source: TypeId, target: TypeId) -> Seq<PieceView>
    decreases target.idx(),
{
    if valid_id(v, source) && valid_id(v, target) && v[source.idx() as int] is Array && v[target.idx() as int] is Array
        && (v[target.idx() as int]->Array_0).idx() < target.idx() {
        let te = v[target.idx() as int]->Array_0;
        let e = diagnostic_source(v, v[source.idx() as int]->Array_0, te);
        seq![PieceView::Text(" Type '"@)] + display_pieces(v, e) + seq![
            PieceView::Text("' is not assignable to type '"@),
        ] + display_pieces(v, te) + seq![PieceView::Text("'."@)] + relation_detail_pieces(v, e, te)
    } else {
        Seq::empty()
    }
}

/// How an assignment diagnostic names the annotated target: by the
/// annotation's text for a union, object or array target, else by the type.
pub open spec fn assignment_target_pieces(v: Seq<KindView>, text: Seq<char>, target: TypeId) -> Seq<PieceView> {
    if valid_id(v, target) && (v[target.idx() as int] is Union || v[target.idx() as int] is Object
        || v[target.idx() as int] is Array) {
        seq![PieceView::Text(text)]
    } else {
        display_pieces(v, target)
    }
}

/// Whether `found` is `before` plus what an assignability check reports:
/// given the store and the type the checked value has (`typed`), nothing
/// when the value has no supported type or is assignable to `target`, and
/// otherwise one TS2322 diagnostic at `range` that names the value's type
/// (widened for a primitive target) and the target as `expected`, followed,
/// when `detailed`, by the elaboration of nested array element types.
pub open spec fn mismatch_reported(
    before: Seq<CheckDiagnostic>,
    found: Seq<CheckDiagnostic>,
    store: Seq<KindView>,
    typed: (Seq<KindView>, Option<TypeId>),
    target: TypeId,
    expected: Seq<PieceView>,
    range: TextRange,
    detailed: bool,
) -> bool {
    let (v1, actual) = typed;
    &&& store == v1
    &&& match actual {
        None => found == before,
        Some(a) => if crate::relations::assignable(v1, a, target) {
            found == before
        } else {
            &&& found.len() == before.len() + 1
            &&& found.drop_last() == before
            &&& found.last().code@ == "TS2322"@
            &&& pieces_view(found.last().message@) == not_assignable_message(
                display_pieces(v1, diagnostic_source(v1, a, target)),
                expected,
            ) + if detailed {
                relation_detail_pieces(v1, diagnostic_source(v1, a, target), target)
            } else {
                Seq::empty()
            }
            &&& found.last().range == Some(range)
        },
    }
}

/// What a signature says: each parameter's type and how diagnostics name
/// it, the return type, and how diagnostics name it.
pub struct SignatureView {
    pub parameters: Seq<(TypeId, Seq<PieceView>)>,
    pub return_type: TypeId,
    pub return_name: Seq<PieceView>,
}

/// What a stored signature says.
pub open spec fn signature_view(s: Signature) -> SignatureView {
    SignatureView {
        parameters: s.parameters@.map_values(|p: SignatureParameter| (p.type_id, pieces_view(p.diagnostic_name@))),
        return_type: s.return_type,
        return_name: pieces_view(s.return_diagnostic_name@),
    }
}

/// What registering function signatures acts on: the type store, the
/// signatures, the signature index of each function symbol, and the
/// declared type of each symbol.
pub struct Registry {
    pub types: Seq<KindView>,
    pub signatures: Seq<SignatureView>,
    pub functions: Map<u32, nat>,
    pub symbols: Map<u32, TypeId>,
}

/// Typing the first `n` parameters of a function for its signature, from
/// the store `v`: the store after, and each parameter's symbol, type and
/// how diagnostics name that type; nothing once a parameter is not a
/// required, plain, annotated identifier, or its annotation names no type.
pub open spec fn parameter_list(
    d: Declarations,
    v: Seq<KindView>,
    r: Seq<Seq<char>>,
    ps: Seq<Parameter>,
    n: nat,
) -> (Seq<KindView>, Option<Seq<(u32, TypeId, Seq<PieceView>)>>)
    decreases n,
{
    if n == 0 || n > ps.len() {
        (v, Some(Seq::empty()))
    } else {
        let (v1, done) = parameter_list(d, v, r, ps, (n - 1) as nat);
        match done {
            None => (v1, None),
            Some(list) => {
                let p = ps[n - 1];
                if p.optional || p.has_initializer || p.has_accessibility || p.readonly || p.is_override
                    || p.has_decorators {
                    (v1, None)
                } else {
                    match (p.binding, p.annotation) {
                        (Binding::Identifier(Some(s)), Some(a)) => {
                            let (v2, t) = annotation_type(d, v1, r, a);
                            match t {
                                None => (v2, None),
                                Some(t) => (v2, Some(list.push((s, t, target_pieces(v2, Some(a), t))))),
                            }
                        },
                        _ => (v1, None),
                    }
                }
            },
        }
    }
}

/// The signature of a function declaration, when it has one: a named,
/// annotated, plain declaration with a body, whose every parameter is a
/// required, plain, annotated identifier. The store after, and the
/// function's symbol, its parameters, its return type and how diagnostics
/// name that type.
pub open spec fn function_registration(d: Declarations, v: Seq<KindView>, r: Seq<Seq<char>>, f: FunctionDeclaration) -> (
    Seq<KindView>,
    Option<(u32, Seq<(u32, TypeId, Seq<PieceView>)>, TypeId, Seq<PieceView>)>,
) {
    if !f.is_declaration || f.generator || f.is_async || f.declare || f.has_type_parameters || f.has_this_parameter
        || f.has_rest_parameter || !f.has_body {
        (v, None)
    } else {
        match (f.id, f.return_annotation) {
            (Some(id), Some(ra)) => match id.symbol {
                None => (v, None),
                Some(fs) => {
                    let (v1, params) = parameter_list(d, v, r, f.parameters@, f.parameters@.len());
                    match params {
                        None => (v1, None),
                        Some(list) => {
                            let (v2, t) = annotation_type(d, v1, r, ra);
                            match t {
                                None => (v2, None),
                                Some(t) => (v2, Some((fs, list, t, target_pieces(v2, Some(ra), t)))),
                            }
                        },
                    }
                },
            },
            _ => (v, None),
        }
    }
}

/// The symbol types after the parameters of `list` take theirs, in order.
pub open spec fn parameters_recorded(m: Map<u32, TypeId>, list: Seq<(u32, TypeId, Seq<PieceView>)>) -> Map<u32, TypeId>
    decreases list.len(),
{
    if list.len() == 0 {
        m
    } else {
        parameters_recorded(m, list.drop_last()).insert(list.last().0, list.last().1)
    }
}

/// Registering the signature of `f`: when it has one and there is room for
/// another signature, the signature is added, the function's symbol names
/// it and the parameters' symbols take their types.
pub open spec fn register_function(d: Declarations, r: Seq<Seq<char>>, g: Registry, f: FunctionDeclaration) -> Registry {
    let (v1, reg) = function_registration(d, g.types, r, f);
    match reg {
        Some((fs, list, t, name)) => if g.signatures.len() < 0xFFFF_FFFF {
            Registry {
                types: v1,
                signatures: g.signatures.push(
                    SignatureView {
                        parameters: list.map_values(|x: (u32, TypeId, Seq<PieceView>)| (x.1, x.2)),
                        return_type: t,
                        return_name: name,
                    },
                ),
                functions: g.functions.insert(fs, g.signatures.len()),
                symbols: parameters_recorded(g.symbols, list),
            }
        } else {
            Registry { types: v1, signatures: g.signatures, functions: g.functions, symbols: g.symbols }
        },
        None => Registry { types: v1, signatures: g.signatures, functions: g.functions, symbols: g.symbols },
    }
}

/// The aliases of a program that annotations may name, in order: those
/// without type parameters, each by name.
pub open spec fn program_aliases(p: Seq<TopLevel>) -> Seq<(Seq<char>, TypeNode)>
    decreases p.len(),
{
    if p.len() == 0 {
        Seq::empty()
    } else {
        let rest = program_aliases(p.drop_last());
        match p.last() {
            TopLevel::Alias { name, has_type_parameters, annotation } => if !has_type_parameters {
                rest.push((name@, annotation))
            } else {
                rest
            },
            _ => rest,
        }
    }
}

/// The interfaces of a program that annotations may name, in order: those
/// declared once, without type parameters or heritage, each by name.
pub open spec fn program_interfaces(p: Seq<TopLevel>) -> Seq<(Seq<char>, Vec<TypeMember>)>
    decreases p.len(),
{
    if p.len() == 0 {
        Seq::empty()
    } else {
        let rest = program_interfaces(p.drop_last());
        match p.last() {
            TopLevel::Interface(i) => if !i.has_type_parameters && !i.has_extends && i.unique {
                rest.push((i.name@, i.members))
            } else {
                rest
            },
            _ => rest,
        }
    }
}

/// The function declarations of a program, in order.
pub open spec fn program_functions(p: Seq<TopLevel>) -> Seq<FunctionDeclaration>
    decreases p.len(),
{
    if p.len() == 0 {
        Seq::empty()
    } else {
        let rest = program_functions(p.drop_last());
        match p.last() {
            TopLevel::Function(f) => rest.push(f),
            _ => rest,
        }
    }
}

/// The aliases of a set of declarations, each by name.
pub open spec fn alias_entries(d: Declarations) -> Seq<(Seq<char>, TypeNode)> {
    d.aliases.map_values(|a: (&str, &TypeNode)| (a.0@, *a.1))
}

/// The interfaces of a set of declarations, each by name.
pub open spec fn interface_entries(d: Declarations) -> Seq<(Seq<char>, Vec<TypeMember>)> {
    d.interfaces.map_values(|i: (&str, &Vec<TypeMember>)| (i.0@, *i.1))
}

/// Registering, in order, the first `n` of the functions `fs` that are
/// declared once under a symbol, from the primitive store and nothing
/// registered.
pub open spec fn registered_functions(d: Declarations, fs: Seq<FunctionDeclaration>, n: nat) -> Registry
    decreases n,
{
    if n == 0 || n > fs.len() {
        Registry { types: primitive_kinds(), signatures: Seq::empty(), functions: Map::empty(), symbols: Map::empty() }
    } else {
        let g = registered_functions(d, fs, (n - 1) as nat);
        let f = fs[n - 1];
        if f.id matches Some(DeclaredName { symbol: Some(_), unique: true }) {
            register_function(d, Seq::empty(), g, f)
        } else {
            g
        }
    }
}

/// Once a parameter stops the signature, later parameters are not typed.
proof fn lemma_parameter_list_stop(d: Declarations, v: Seq<KindView>, r: Seq<Seq<char>>, ps: Seq<Parameter>, i: nat, n: nat)
    requires
        i <= n <= ps.len(),
        parameter_list(d, v, r, ps, i).1 is None,
    ensures
        parameter_list(d, v, r, ps, n) == parameter_list(d, v, r, ps, i),
    decreases n - i,
{
    if n > i {
        lemma_parameter_list_stop(d, v, r, ps, i, (n - 1) as nat);
    }
}

/// What checking `expr` against `target` leaves reported: where the
/// literal's shape calls for it and the check supports it, the structural
/// diagnostics; else the plain mismatch at `range`, the target named by
/// `expected` applied to the store after typing.
pub open spec fn check_reported(
    before: Seq<CheckDiagnostic>,
    found: Seq<CheckDiagnostic>,
    store: Seq<KindView>,
    c: ExprContext,
    d: Declarations,
    v: Seq<KindView>,
    expr: Expr,
    target: TypeId,
    annotation: Option<TypeNode>,
    range: TextRange,
    expected: spec_fn(Seq<KindView>) -> Seq<PieceView>,
) -> bool {
    let (v1, structural) = if needs_structural(v, expr, target) {
        structural_facts(c, d, v, expr, target, annotation, Some(range))
    } else {
        (v, None)
    };
    match structural {
        Some(fs) => store == v1 && facts_of(found) == facts_of(before) + fs,
        None => {
            let typed = expr_type(c, v1, expr, Some(target));
            mismatch_reported(before, found, store, typed, target, expected(typed.0), range, false)
        },
    }
}

/// What a diagnostic says: its code, message and range.
pub struct DiagnosticFacts {
    pub code: Seq<char>,
    pub message: Seq<PieceView>,
    pub range: Option<TextRange>,
}

/// What a checker diagnostic says.
pub open spec fn facts(d: CheckDiagnostic) -> DiagnosticFacts {
    DiagnosticFacts { code: d.code@, message: pieces_view(d.message@), range: d.range }
}

/// What a list of checker diagnostics says.
pub open spec fn facts_of(ds: Seq<CheckDiagnostic>) -> Seq<DiagnosticFacts> {
    ds.map_values(|d: CheckDiagnostic| facts(d))
}

/// Checking the first `n` arguments of a call against the parameters
/// (each a type and how diagnostics name it), left to right from the store
/// `v`: the store after, the TS2345 diagnostics found, and whether a spread
/// argument stopped the check.
pub open spec fn argument_checks(
    c: ExprContext,
    v: Seq<KindView>,
    args: Seq<Argument>,
    params: Seq<(TypeId, Seq<PieceView>)>,
    n: nat,
) -> (Seq<KindView>, Seq<DiagnosticFacts>, bool)
    decreases n,
{
    if n == 0 {
        (v, Seq::empty(), false)
    } else {
        let (v1, ds, stopped) = argument_checks(c, v, args, params, (n - 1) as nat);
        if stopped {
            (v1, ds, true)
        } else {
            match args[n - 1].expression {
                None => (v1, ds, true),
                Some(e) => {
                    let (target, name) = params[n - 1];
                    let (v2, actual) = expr_type(c, v1, e, Some(target));
                    match actual {
                        None => (v2, ds, false),
                        Some(a) => if crate::relations::assignable(v2, a, target) {
                            (v2, ds, false)
                        } else {
                            let src = diagnostic_source(v2, a, target);
                            (
                                v2,
                                ds.push(
                                    DiagnosticFacts {
                                        code: "TS2345"@,
                                        message: seq![PieceView::Text("Argument of type '"@)]
                                            + display_pieces(v2, src) + seq![
                                            PieceView::Text("' is not assignable to parameter of type '"@),
                                        ] + name + seq![PieceView::Text("'."@)]
                                            + relation_detail_pieces(v2, src, target),
                                        range: Some(e.span),
                                    },
                                ),
                                false,
                            )
                        },
                    }
                },
            }
        }
    }
}

/// Once a spread argument stops the check, later arguments are not checked.
proof fn lemma_argument_checks_stopped(
    c: ExprContext,
    v: Seq<KindView>,
    args: Seq<Argument>,
    params: Seq<(TypeId, Seq<PieceView>)>,
    i: nat,
    n: nat,
)
    requires
        i <= n,
        argument_checks(c, v, args, params, i).2,
    ensures
        argument_checks(c, v, args, params, n) == argument_checks(c, v, args, params, i),
    decreases n - i,
{
    if n > i {
        lemma_argument_checks_stopped(c, v, args, params, i, (n - 1) as nat);
    }
}

/// The declared types of symbols after binding `binding` to `t`.
pub open spec fn recorded(m: Map<u32, TypeId>, binding: Binding, t: Option<TypeId>) -> Map<u32, TypeId> {
    match (binding, t) {
        (Binding::Identifier(Some(s)), Some(t)) => m.insert(s, t),
        _ => m,
    }
}

/// Once an annotation in a list is unsupported, the rest of the list is
/// not resolved.
proof fn lemma_annotation_list_stops(d: Declarations, v: Seq<KindView>, r: Seq<Seq<char>>, nodes: Seq<TypeNode>, i: int)
    requires
        0 <= i <= nodes.len(),
        annotation_list(d, v, r, nodes.take(i)).1 is None,
    ensures
        annotation_list(d, v, r, nodes) == annotation_list(d, v, r, nodes.take(i)),
    decreases nodes.len() - i,
{
    if i == nodes.len() {
        assert(nodes.take(i) =~= nodes);
    } else {
        let d1 = nodes.drop_last();
        assert(d1.take(i) =~= nodes.take(i));
        lemma_annotation_list_stops(d, v, r, d1, i);
    }
}

/// Once a member in a list is unsupported, the rest of the list is not
/// resolved.
proof fn lemma_property_list_stops(d: Declarations, v: Seq<KindView>, r: Seq<Seq<char>>, members: Seq<TypeMember>, i: int)
    requires
        0 <= i <= members.len(),
        property_list(d, v, r, members.take(i)).1 is None,
    ensures
        property_list(d, v, r, members) == property_list(d, v, r, members.take(i)),
    decreases members.len() - i,
{
    if i == members.len() {
        assert(members.take(i) =~= members);
    } else {
        let d1 = members.drop_last();
        assert(d1.take(i) =~= members.take(i));
        lemma_property_list_stops(d, v, r, d1, i);
    }
}

/// The store slot of the primitive a keyword names.
pub open spec fn keyword_index(keyword: Keyword) -> u32 {
    match keyword {
        Keyword::Any => 0,
        Keyword::Unknown => 1,
        Keyword::Never => 2,
        Keyword::Void => 3,
        Keyword::Undefined => 4,
        Keyword::Null => 5,
        Keyword::Boolean => 6,
        Keyword::Number => 7,
        Keyword::BigInt => 8,
        Keyword::String => 9,
    }
}

/// The bit pattern of the negation of the number with bit pattern `bits`.
pub open spec fn negated_bits(bits: u64) -> u64 {
    bits ^ 0x8000_0000_0000_0000u64
}

/// The kind a literal annotation denotes, if it is supported.
pub open spec fn literal_kind(literal: &LiteralType) -> Option<KindView> {
    match literal {
        LiteralType::Boolean(value) => Some(KindView::BooleanLiteral(*value)),
        LiteralType::Number(bits) => Some(
            KindView::NumberLiteral(crate::types::canonical_number_bits(*bits)),
        ),
        LiteralType::BigInt(value) => Some(KindView::BigIntLiteral(value@)),
        LiteralType::String(value) => Some(KindView::StringLiteral(value@)),
        LiteralType::NegatedNumber(bits) => Some(
            KindView::NumberLiteral(crate::types::canonical_number_bits(negated_bits(*bits))),
        ),
        LiteralType::Unsupported => None,
    }
}

} // verus!
