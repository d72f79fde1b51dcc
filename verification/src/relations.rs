//! Structural assignability between interned types, with a per-run cache.

use std::collections::HashMap;

use vstd::prelude::*;

use crate::types::{
    any_id, group_type_id, leaves_of, lemma_leaves_extend, lemma_leaves_of_are_leaves,
    lemma_leaves_of_members, lemma_sorted_members, lemma_union_id_leaves, member_leaves, never_id,
    primitive_kinds, sorted_members, store_wf, union_fits, union_id, union_leaves, union_view,
    unknown_id, valid_id, widened, KindView, TypeId, TypeKind, TypeStore,
};

verus! {

broadcast use group_type_id;

/// Whether `source` is assignable to `target` in the store whose contents
/// are `v`.
///
/// Every type is assignable to itself; `any` and `never` are assignable to
/// everything; everything is assignable to `any` and `unknown`; a union
/// source is assignable when all its members are; a union target accepts a
/// source that is assignable to one of its members; and a literal is
/// assignable to its primitive.
pub open spec fn assignable(v: Seq<KindView>, source: TypeId, target: TypeId) -> bool
    decreases source.idx() as int, target.idx() as int, 1int, 0int,
{
    if source == target {
        true
    } else if source == any_id() || source == never_id() {
        true
    } else if target == any_id() || target == unknown_id() {
        true
    } else if valid_id(v, source) && v[source.idx() as int] is Union {
        all_assignable(v, v[source.idx() as int]->Union_0, target, source.idx() as int)
    } else if valid_id(v, target) && v[target.idx() as int] is Union {
        some_assignable(v, source, v[target.idx() as int]->Union_0, target.idx() as int)
    } else {
        valid_id(v, source) && valid_id(v, target) && literal_of_primitive(
            v[source.idx() as int],
            v[target.idx() as int],
        )
    }
}

/// Whether every member (all below slot `bound`) is assignable to `target`.
pub open spec fn all_assignable(v: Seq<KindView>, sources: Seq<TypeId>, target: TypeId, bound: int) -> bool
    decreases bound, target.idx() as int, 0int, sources.len() as int,
{
    if sources.len() == 0 {
        true
    } else {
        all_assignable(v, sources.drop_last(), target, bound) && if (sources.last().idx() as int)
            < bound {
            assignable(v, sources.last(), target)
        } else {
            false
        }
    }
}

/// Whether `source` is assignable to some member (all below slot `bound`).
pub open spec fn some_assignable(v: Seq<KindView>, source: TypeId, targets: Seq<TypeId>, bound: int) -> bool
    decreases source.idx() as int, bound, 0int, targets.len() as int,
{
    if targets.len() == 0 {
        false
    } else {
        some_assignable(v, source, targets.drop_last(), bound) || if (targets.last().idx() as int)
            < bound {
            assignable(v, source, targets.last())
        } else {
            false
        }
    }
}

/// Whether `source` is a literal kind and `target` its primitive kind.
pub open spec fn literal_of_primitive(source: KindView, target: KindView) -> bool {
    ||| source is BooleanLiteral && target is Boolean
    ||| source is NumberLiteral && target is Number
    ||| source is BigIntLiteral && target is BigInt
    ||| source is StringLiteral && target is String
}

/// The progress of one cached relation.
#[derive(Clone, Copy, Debug, PartialEq, Eq, Structural)]
enum RelationState {
    InProgress,
    Complete(bool),
}

/// The cache key of a pair of identities.
pub open spec fn pair_key(source: TypeId, target: TypeId) -> u64 {
    (source.idx() as int * 0x1_0000_0000 + target.idx() as int) as u64
}

/// Distinct pairs have distinct keys.
proof fn lemma_pair_key_injective(s1: TypeId, t1: TypeId, s2: TypeId, t2: TypeId)
    ensures
        pair_key(s1, t1) == pair_key(s2, t2) ==> s1 == s2 && t1 == t2,
{
    let a1 = s1.idx() as int;
    let b1 = t1.idx() as int;
    let a2 = s2.idx() as int;
    let b2 = t2.idx() as int;
    assert(0 <= a1 * 0x1_0000_0000 + b1 < 0x1_0000_0000_0000_0000) by (nonlinear_arith)
        requires
            0 <= a1 < 0x1_0000_0000,
            0 <= b1 < 0x1_0000_0000,
    ;
    assert(0 <= a2 * 0x1_0000_0000 + b2 < 0x1_0000_0000_0000_0000) by (nonlinear_arith)
        requires
            0 <= a2 < 0x1_0000_0000,
            0 <= b2 < 0x1_0000_0000,
    ;
    if a1 * 0x1_0000_0000 + b1 == a2 * 0x1_0000_0000 + b2 {
        assert(a1 == a2 && b1 == b2) by (nonlinear_arith)
            requires
                a1 * 0x1_0000_0000 + b1 == a2 * 0x1_0000_0000 + b2,
                0 <= b1 < 0x1_0000_0000,
                0 <= b2 < 0x1_0000_0000,
        ;
    }
}

fn compute_key(source: TypeId, target: TypeId) -> (r: u64)
    ensures
        r == pair_key(source, target),
{
    let a = source.index() as u64;
    let b = target.index() as u64;
    assert(a * 0x1_0000_0000 + b < 0x1_0000_0000_0000_0000) by (nonlinear_arith)
        requires
            a < 0x1_0000_0000,
            b < 0x1_0000_0000,
    ;
    a * 0x1_0000_0000 + b
}

/// Whether the pair `(s, t)` comes strictly after `(s0, t0)` in
/// lexicographic order of indices.
pub open spec fn pair_after(s: TypeId, t: TypeId, s0: TypeId, t0: TypeId) -> bool {
    s.idx() > s0.idx() || (s.idx() == s0.idx() && t.idx() > t0.idx())
}

/// Whether the cache `m` holds `(s, t)` as in progress.
spec fn map_pending(m: Map<u64, RelationState>, s: TypeId, t: TypeId) -> bool {
    m.contains_key(pair_key(s, t)) && m[pair_key(s, t)] is InProgress
}

/// Cached structural relations for one checker run.
pub struct TypeRelations {
    assignable: HashMap<u64, RelationState>,
    /// The store contents that the cached results were computed against.
    seen: Ghost<Seq<KindView>>,
}

impl TypeRelations {
    /// The store contents the cache was last used with.
    pub closed spec fn seen_view(&self) -> Seq<KindView> {
        self.seen@
    }


    /// Every cached pair names slots of the seen store and every completed
    /// result is the assignability of that pair.
    closed spec fn cache_correct(&self) -> bool {
        &&& store_wf(self.seen@)
        &&& forall|s: TypeId, t: TypeId| #[trigger]
            self.assignable@.contains_key(pair_key(s, t)) ==> {
                &&& valid_id(self.seen@, s)
                &&& valid_id(self.seen@, t)
                &&& (self.assignable@[pair_key(s, t)] matches RelationState::Complete(b) ==> b
                    == assignable(self.seen@, s, t))
            }
    }

    /// The cache is consistent and no relation is in progress.
    pub closed spec fn at_rest(&self) -> bool {
        &&& self.cache_correct()
        &&& forall|s: TypeId, t: TypeId| !#[trigger] map_pending(self.assignable@, s, t)
    }

    /// An empty cache.
    pub fn new() -> (r: TypeRelations)
        ensures
            r.at_rest(),
            r.seen_view() == primitive_kinds(),
    {
        let r = TypeRelations { assignable: HashMap::new(), seen: Ghost(primitive_kinds()) };
        proof {
            assert(store_wf(primitive_kinds()));
        }
        r
    }

    /// Whether `source` is assignable to `target` in `types`.
    ///
    /// The cache stays valid while the store only grows, so one cache may
    /// serve a whole checker run.
    pub fn is_assignable(&mut self, types: &TypeStore, source: TypeId, target: TypeId) -> (r: bool)
        requires
            types.wf(),
            old(self).at_rest(),
            old(self).seen_view().is_prefix_of(types@),
            valid_id(types@, source),
            valid_id(types@, target),
        ensures
            r == assignable(types@, source, target),
            final(self).at_rest(),
            final(self).seen_view() == types@,
    {
        proof {
            let v = self.seen@;
            let w = types@;
            assert forall|s: TypeId, t: TypeId| #[trigger]
                self.assignable@.contains_key(pair_key(s, t)) implies {
                &&& valid_id(w, s)
                &&& valid_id(w, t)
                &&& (self.assignable@[pair_key(s, t)] matches RelationState::Complete(b) ==> b
                    == assignable(w, s, t))
            } by {
                lemma_assignable_extend(v, w, s, t);
            }
        }
        self.seen = Ghost(types@);
        self.relate(types, source, target)
    }

    /// The cached relation, computed on first use.
    fn relate(&mut self, types: &TypeStore, source: TypeId, target: TypeId) -> (r: bool)
        requires
            types.wf(),
            old(self).cache_correct(),
            old(self).seen_view() == types@,
            valid_id(types@, source),
            valid_id(types@, target),
            forall|s: TypeId, t: TypeId| #[trigger]
                map_pending(old(self).assignable@, s, t) ==> pair_after(s, t, source, target),
        ensures
            r == assignable(types@, source, target),
            final(self).cache_correct(),
            final(self).seen_view() == types@,
            forall|s: TypeId, t: TypeId| #[trigger]
                map_pending(final(self).assignable@, s, t) == map_pending(old(self).assignable@, s, t),
        decreases source.idx(), target.idx(), 1int,
    {
        broadcast use vstd::std_specs::hash::group_hash_axioms;

        if source == target {
            return true;
        }
        let key = compute_key(source, target);
        match self.assignable.get(&key) {
            Some(RelationState::Complete(result)) => {
                return *result;
            },
            Some(RelationState::InProgress) => {
                assert(map_pending(self.assignable@, source, target));
                assert(false);
                return true;
            },
            None => {},
        }
        let ghost before = self.assignable@;
        self.assignable.insert(key, RelationState::InProgress);
        proof {
            assert forall|s: TypeId, t: TypeId| #[trigger]
                self.assignable@.contains_key(pair_key(s, t)) implies {
                &&& valid_id(self.seen@, s)
                &&& valid_id(self.seen@, t)
                &&& (self.assignable@[pair_key(s, t)] matches RelationState::Complete(b) ==> b
                    == assignable(self.seen@, s, t))
            } by {
                lemma_pair_key_injective(s, t, source, target);
                if pair_key(s, t) != key {
                    assert(before.contains_key(pair_key(s, t)));
                }
            }
            assert forall|s: TypeId, t: TypeId| #[trigger]
                map_pending(self.assignable@, s, t) implies pair_after(s, t, source, target) || (s == source && t
                == target) by {
                lemma_pair_key_injective(s, t, source, target);
                if pair_key(s, t) != key {
                    assert(self.assignable@[pair_key(s, t)] == before[pair_key(s, t)]);
                    assert(map_pending(old(self).assignable@, s, t));
                }
            }
        }
        let ghost middle = self.assignable@;
        let result = self.compute_assignable(types, source, target);
        let ghost after = self.assignable@;
        self.assignable.insert(key, RelationState::Complete(result));
        proof {
            assert forall|s: TypeId, t: TypeId| #[trigger]
                self.assignable@.contains_key(pair_key(s, t)) implies {
                &&& valid_id(self.seen@, s)
                &&& valid_id(self.seen@, t)
                &&& (self.assignable@[pair_key(s, t)] matches RelationState::Complete(b) ==> b
                    == assignable(self.seen@, s, t))
            } by {
                lemma_pair_key_injective(s, t, source, target);
                if pair_key(s, t) != key {
                    assert(after.contains_key(pair_key(s, t)));
                }
            }
            assert forall|s: TypeId, t: TypeId| #[trigger]
                map_pending(self.assignable@, s, t) == map_pending(old(self).assignable@, s, t) by {
                lemma_pair_key_injective(s, t, source, target);
                let pk = pair_key(s, t);
                if pk != key {
                    assert(map_pending(self.assignable@, s, t) == map_pending(after, s, t));
                    assert(map_pending(after, s, t) == map_pending(middle, s, t));
                    assert(map_pending(middle, s, t) == map_pending(before, s, t));
                } else {
                    assert(s == source && t == target);
                }
            }
        }
        result
    }

    /// The relation itself, for a pair that is not yet cached.
    fn compute_assignable(&mut self, types: &TypeStore, source: TypeId, target: TypeId) -> (r:
        bool)
        requires
            types.wf(),
            old(self).cache_correct(),
            old(self).seen_view() == types@,
            valid_id(types@, source),
            valid_id(types@, target),
            source != target,
            forall|s: TypeId, t: TypeId| #[trigger]
                map_pending(old(self).assignable@, s, t) ==> pair_after(s, t, source, target) || (s == source && t
                    == target),
        ensures
            r == assignable(types@, source, target),
            final(self).cache_correct(),
            final(self).seen_view() == types@,
            forall|s: TypeId, t: TypeId| #[trigger]
                map_pending(final(self).assignable@, s, t) == map_pending(old(self).assignable@, s, t),
        decreases source.idx(), target.idx(), 0int,
    {
        let ghost v = types@;
        let primitives = types.primitives();
        if source == primitives.any || source == primitives.never {
            return true;
        }
        if target == primitives.any || target == primitives.unknown {
            return true;
        }
        let source_kind = types.kind(source);
        let target_kind = types.kind(target);
        if let Some(TypeKind::Union(sources)) = source_kind {
            let ghost ss = sources@;
            let ghost j = source.idx() as int;
            proof {
                lemma_union_members_below(v, j);
                assert(v[j] == KindView::Union(ss));
                assert(v[j]->Union_0 =~= ss);
                assert forall|k: int| 0 <= k < ss.len() implies (#[trigger] ss[k]).idx() < j by {
                    assert(v[j]->Union_0[k] == ss[k]);
                }
            }
            let mut i: usize = 0;
            while i < sources.len()
                invariant
                    types@ == v,
                    store_wf(v),
                    valid_id(v, source),
                    valid_id(v, target),
                    j == source.idx(),
                    v[j] == KindView::Union(ss),
                    sources@ == ss,
                    forall|k: int| 0 <= k < ss.len() ==> (#[trigger] ss[k]).idx() < j,
                    i <= ss.len(),
                    all_assignable(v, ss.take(i as int), target, j),
                    self.cache_correct(),
                    self.seen_view() == v,
                    forall|s: TypeId, t: TypeId| #[trigger]
                        map_pending(self.assignable@, s, t) == map_pending(old(self).assignable@, s, t),
                    forall|s: TypeId, t: TypeId| #[trigger]
                        map_pending(old(self).assignable@, s, t) ==> pair_after(s, t, source, target) || (s == source
                            && t == target),
                    source != target,
                    source != any_id() && source != never_id(),
                    target != any_id() && target != unknown_id(),
                decreases ss.len() - i,
            {
                let member = sources[i];
                assert(ss[i as int].idx() < j);
                let ok = self.relate(types, member, target);
                assert(ss.take(i as int + 1).drop_last() =~= ss.take(i as int));
                if !ok {
                    assert(!all_assignable(v, ss.take(i as int + 1), target, j));
                    proof {
                        lemma_all_prefix(v, ss, target, j, i as int + 1);
                    }
                    assert(ss.take(ss.len() as int) =~= ss);
                    return false;
                }
                i = i + 1;
            }
            assert(ss.take(ss.len() as int) =~= ss);
            return true;
        }
        if let Some(TypeKind::Union(targets)) = target_kind {
            let ghost ts = targets@;
            let ghost j = target.idx() as int;
            proof {
                lemma_union_members_below(v, j);
                assert(v[j] == KindView::Union(ts));
                assert(v[j]->Union_0 =~= ts);
                assert forall|k: int| 0 <= k < ts.len() implies (#[trigger] ts[k]).idx() < j by {
                    assert(v[j]->Union_0[k] == ts[k]);
                }
            }
            let mut i: usize = 0;
            while i < targets.len()
                invariant
                    types@ == v,
                    store_wf(v),
                    valid_id(v, source),
                    valid_id(v, target),
                    j == target.idx(),
                    v[j] == KindView::Union(ts),
                    targets@ == ts,
                    !(v[source.idx() as int] is Union),
                    forall|k: int| 0 <= k < ts.len() ==> (#[trigger] ts[k]).idx() < j,
                    i <= ts.len(),
                    !some_assignable(v, source, ts.take(i as int), j),
                    self.cache_correct(),
                    self.seen_view() == v,
                    forall|s: TypeId, t: TypeId| #[trigger]
                        map_pending(self.assignable@, s, t) == map_pending(old(self).assignable@, s, t),
                    forall|s: TypeId, t: TypeId| #[trigger]
                        map_pending(old(self).assignable@, s, t) ==> pair_after(s, t, source, target) || (s == source
                            && t == target),
                    source != target,
                    source != any_id() && source != never_id(),
                    target != any_id() && target != unknown_id(),
                decreases ts.len() - i,
            {
                let member = targets[i];
                assert(ts[i as int].idx() < j);
                let ok = self.relate(types, source, member);
                assert(ts.take(i as int + 1).drop_last() =~= ts.take(i as int));
                if ok {
                    assert(some_assignable(v, source, ts.take(i as int + 1), j));
                    proof {
                        lemma_some_prefix(v, source, ts, j, i as int + 1);
                    }
                    assert(ts.take(ts.len() as int) =~= ts);
                    return true;
                }
                i = i + 1;
            }
            assert(ts.take(ts.len() as int) =~= ts);
            return false;
        }
        match (source_kind, target_kind) {
            (Some(TypeKind::BooleanLiteral(_)), Some(TypeKind::Boolean))
            | (Some(TypeKind::NumberLiteral(_)), Some(TypeKind::Number))
            | (Some(TypeKind::BigIntLiteral(_)), Some(TypeKind::BigInt))
            | (Some(TypeKind::StringLiteral(_)), Some(TypeKind::String)) => true,
            _ => false,
        }
    }
}

impl Default for TypeRelations {
    fn default() -> (r: TypeRelations)
        ensures
            r.at_rest(),
            r.seen_view() == primitive_kinds(),
    {
        TypeRelations::new()
    }
}

/// The members of a union in a well-formed store all lie below its slot.
proof fn lemma_union_members_below(v: Seq<KindView>, j: int)
    requires
        store_wf(v),
        0 <= j < v.len(),
        v[j] is Union,
    ensures
        forall|k: int|
            0 <= k < v[j]->Union_0.len() ==> (#[trigger] v[j]->Union_0[k]).idx() < j,
{
    assert(v[j] matches KindView::Union(ns) ==> forall|m: int|
        0 <= m < ns.len() ==> (#[trigger] ns[m]).idx() < j);
}

/// Once a prefix fails, the whole list fails.
proof fn lemma_all_prefix(v: Seq<KindView>, ss: Seq<TypeId>, target: TypeId, bound: int, n: int)
    requires
        0 <= n <= ss.len(),
        !all_assignable(v, ss.take(n), target, bound),
    ensures
        !all_assignable(v, ss, target, bound),
    decreases ss.len() - n,
{
    if n < ss.len() {
        assert(ss.take(n + 1).drop_last() =~= ss.take(n));
        lemma_all_prefix(v, ss, target, bound, n + 1);
    } else {
        assert(ss.take(n) =~= ss);
    }
}

/// Once a prefix succeeds, the whole list succeeds.
proof fn lemma_some_prefix(v: Seq<KindView>, source: TypeId, ts: Seq<TypeId>, bound: int, n: int)
    requires
        0 <= n <= ts.len(),
        some_assignable(v, source, ts.take(n), bound),
    ensures
        some_assignable(v, source, ts, bound),
    decreases ts.len() - n,
{
    if n < ts.len() {
        assert(ts.take(n + 1).drop_last() =~= ts.take(n));
        lemma_some_prefix(v, source, ts, bound, n + 1);
    } else {
        assert(ts.take(n) =~= ts);
    }
}

/// Assignability between types of a store does not change as the store grows.
pub proof fn lemma_assignable_extend(v: Seq<KindView>, w: Seq<KindView>, source: TypeId, target: TypeId)
    requires
        store_wf(w),
        v.is_prefix_of(w),
        valid_id(v, source),
        valid_id(v, target),
    ensures
        assignable(v, source, target) == assignable(w, source, target),
    decreases source.idx() as int, target.idx() as int, 1int, 0int,
{
    assert(v[source.idx() as int] == w[source.idx() as int]);
    assert(v[target.idx() as int] == w[target.idx() as int]);
    if source == target || source == any_id() || source == never_id() || target == any_id()
        || target == unknown_id() {
    } else if v[source.idx() as int] is Union {
        let j = source.idx() as int;
        lemma_union_members_below(w, j);
        lemma_all_extend(v, w, v[j]->Union_0, target, j);
    } else if v[target.idx() as int] is Union {
        let j = target.idx() as int;
        lemma_union_members_below(w, j);
        lemma_some_extend(v, w, source, v[j]->Union_0, j);
    }
}

proof fn lemma_all_extend(v: Seq<KindView>, w: Seq<KindView>, ss: Seq<TypeId>, target: TypeId, bound: int)
    requires
        store_wf(w),
        v.is_prefix_of(w),
        bound <= v.len(),
        valid_id(v, target),
        forall|k: int| 0 <= k < ss.len() ==> (#[trigger] ss[k]).idx() < bound,
    ensures
        all_assignable(v, ss, target, bound) == all_assignable(w, ss, target, bound),
    decreases bound, target.idx() as int, 0int, ss.len() as int,
{
    if ss.len() > 0 {
        lemma_all_extend(v, w, ss.drop_last(), target, bound);
        assert(ss.last() == ss[ss.len() - 1]);
        lemma_assignable_extend(v, w, ss.last(), target);
    }
}

proof fn lemma_some_extend(v: Seq<KindView>, w: Seq<KindView>, source: TypeId, ts: Seq<TypeId>, bound: int)
    requires
        store_wf(w),
        v.is_prefix_of(w),
        bound <= v.len(),
        valid_id(v, source),
        forall|k: int| 0 <= k < ts.len() ==> (#[trigger] ts[k]).idx() < bound,
    ensures
        some_assignable(v, source, ts, bound) == some_assignable(w, source, ts, bound),
    decreases source.idx() as int, bound, 0int, ts.len() as int,
{
    if ts.len() > 0 {
        lemma_some_extend(v, w, source, ts.drop_last(), bound);
        assert(ts.last() == ts[ts.len() - 1]);
        lemma_assignable_extend(v, w, source, ts.last());
    }
}


/// A type is assignable to a target when all the leaves it stands for are.
proof fn lemma_assignable_from_leaves(v: Seq<KindView>, x: TypeId, t: TypeId)
    requires
        store_wf(v),
        valid_id(v, x),
        forall|l: TypeId| #[trigger] member_leaves(v, x).contains(l) ==> assignable(v, l, t),
    ensures
        assignable(v, x, t),
    decreases x.idx() as int, 1int, 0int,
{
    let j = x.idx() as int;
    if v[j] is Union {
        let ms = v[j]->Union_0;
        lemma_union_members_below(v, j);
        assert(member_leaves(v, x) == leaves_of(v, ms, j));
        lemma_all_from_leaves(v, ms, t, j);
    } else {
        assert(member_leaves(v, x) == set![x]);
        assert(member_leaves(v, x).contains(x));
    }
}

proof fn lemma_all_from_leaves(v: Seq<KindView>, ms: Seq<TypeId>, t: TypeId, bound: int)
    requires
        store_wf(v),
        bound <= v.len(),
        forall|k: int| 0 <= k < ms.len() ==> (#[trigger] ms[k]).idx() < bound,
        forall|l: TypeId| #[trigger] leaves_of(v, ms, bound).contains(l) ==> assignable(v, l, t),
    ensures
        all_assignable(v, ms, t, bound),
    decreases bound, 0int, ms.len() as int,
{
    if ms.len() > 0 {
        let d = ms.drop_last();
        assert forall|k: int| 0 <= k < d.len() implies (#[trigger] d[k]).idx() < bound by {
            assert(d[k] == ms[k]);
        }
        assert(ms.last() == ms[ms.len() - 1]);
        assert(leaves_of(v, ms, bound) == leaves_of(v, d, bound) + member_leaves(v, ms.last()));
        assert forall|l: TypeId| #[trigger] leaves_of(v, d, bound).contains(l) implies assignable(v, l, t) by {
            assert(leaves_of(v, ms, bound).contains(l));
        }
        assert forall|l: TypeId| #[trigger] member_leaves(v, ms.last()).contains(l) implies assignable(v, l, t) by {
            assert(leaves_of(v, ms, bound).contains(l));
        }
        lemma_all_from_leaves(v, d, t, bound);
        lemma_assignable_from_leaves(v, ms.last(), t);
    }
}

/// A source assignable to one member of a list is assignable to some member.
proof fn lemma_some_member(v: Seq<KindView>, s: TypeId, ts: Seq<TypeId>, bound: int, k: int)
    requires
        0 <= k < ts.len(),
        ts[k].idx() < bound,
        assignable(v, s, ts[k]),
    ensures
        some_assignable(v, s, ts, bound),
    decreases ts.len(),
{
    if k < ts.len() - 1 {
        let d = ts.drop_last();
        assert(d[k] == ts[k]);
        lemma_some_member(v, s, d, bound, k);
    } else {
        assert(ts.last() == ts[k]);
    }
}

/// Every member of a union is assignable to the union.
pub proof fn lemma_members_assignable_to_union(v: Seq<KindView>, ms: Seq<TypeId>, i: int)
    requires
        store_wf(v),
        forall|k: int| 0 <= k < ms.len() ==> valid_id(v, #[trigger] ms[k]),
        union_fits(v, ms),
        0 <= i < ms.len(),
    ensures
        assignable(union_view(v, ms), ms[i], union_id(v, ms)),
{
    lemma_union_id_leaves(v, ms);
    let n = v.len() as int;
    let v1 = union_view(v, ms);
    let u = union_id(v, ms);
    let x = ms[i];
    let lx = leaves_of(v, ms, n);
    lemma_leaves_extend(v, v1, x);
    lemma_leaves_of_are_leaves(v, ms, n);
    assert(valid_id(v, x));
    assert(v1[0] == KindView::Any && v1[1] == KindView::Unknown && v1[2] == KindView::Never) by {
        assert(v1[0] == primitive_kinds()[0]);
        assert(v1[1] == primitive_kinds()[1]);
        assert(v1[2] == primitive_kinds()[2]);
    }
    assert forall|l: TypeId| #[trigger] member_leaves(v1, x).contains(l) implies assignable(v1, l, u) by {
        assert forall|k: int| 0 <= k < ms.len() implies (#[trigger] ms[k]).idx() < n by {}
        lemma_leaves_of_members(v, ms, n, l);
        assert(member_leaves(v, ms[i]).contains(l));
        assert(lx.contains(l));
        assert(valid_id(v, l) && !(v[l.idx() as int] is Union));
        assert(v1[l.idx() as int] == v[l.idx() as int]);
        if lx.contains(any_id()) || lx.contains(unknown_id()) {
        } else if l == never_id() {
        } else {
            let stripped = union_leaves(v, ms);
            assert(stripped.contains(l));
            lemma_sorted_members(stripped, v.len());
            let sorted = sorted_members(stripped);
            assert(sorted.to_set().contains(l));
            let k = choose|k: int| 0 <= k < sorted.len() && sorted[k] == l;
            if sorted.len() == 1 {
                assert(u == sorted[0]);
            } else {
                let j = u.idx() as int;
                assert(v1[j] == KindView::Union(sorted));
                lemma_union_members_below(v1, j);
                assert(v1[j]->Union_0 == sorted);
                assert(sorted[k].idx() < j);
                lemma_some_member(v1, l, sorted, j, k);
                assert(l != u);
            }
        }
    }
    lemma_assignable_from_leaves(v1, x, u);
}

/// A literal type is assignable to its widened primitive.
pub proof fn lemma_literal_assignable_to_widened(v: Seq<KindView>, id: TypeId)
    requires
        store_wf(v),
        valid_id(v, id),
    ensures
        assignable(v, id, widened(v, id)),
{
    let j = id.idx() as int;
    assert(v[0] == primitive_kinds()[0]);
    assert(v[2] == primitive_kinds()[2]);
    assert(v[6] == primitive_kinds()[6]);
    assert(v[7] == primitive_kinds()[7]);
    assert(v[8] == primitive_kinds()[8]);
    assert(v[9] == primitive_kinds()[9]);
}

} // verus!
