use vstd::prelude::*;
use crate::ast::{BoundSetModel, Error, GenericParam, ParamModel, TargetGenerics, TargetModel};

verus! {

/// True of a type parameter named `name`; lifetimes and const parameters
/// never match, whatever their name.
pub open spec fn matches_type_name(p: ParamModel, name: Seq<u8>) -> bool {
    p matches ParamModel::Type { name: n, .. } && n == name
}

/// Index of the first type parameter named `name`, if any.
pub open spec fn find_type_idx(ps: Seq<ParamModel>, name: Seq<u8>) -> Option<int>
    decreases ps.len(),
{
    if ps.len() == 0 {
        None
    } else if matches_type_name(ps[0], name) {
        Some(0)
    } else {
        match find_type_idx(ps.skip(1), name) {
            Some(j) => Some(j + 1),
            None => None,
        }
    }
}

pub proof fn lemma_find_type_idx_props(ps: Seq<ParamModel>, name: Seq<u8>)
    ensures
        match find_type_idx(ps, name) {
            Some(j) => 0 <= j < ps.len() && matches_type_name(ps[j], name) && forall|k: int|
                0 <= k < j ==> !matches_type_name(#[trigger] ps[k], name),
            None => forall|k: int| 0 <= k < ps.len() ==> !matches_type_name(
                #[trigger] ps[k],
                name,
            ),
        },
    decreases ps.len(),
{
    if ps.len() > 0 && !matches_type_name(ps[0], name) {
        lemma_find_type_idx_props(ps.skip(1), name);
        assert(forall|k: int| 1 <= k < ps.len() ==> ps.skip(1)[k - 1] == #[trigger] ps[k]);
    }
}

pub proof fn lemma_find_type_idx_unique(ps: Seq<ParamModel>, name: Seq<u8>, j: int)
    requires
        0 <= j < ps.len(),
        matches_type_name(ps[j], name),
        forall|k: int| 0 <= k < j ==> !matches_type_name(#[trigger] ps[k], name),
    ensures
        find_type_idx(ps, name) == Some(j),
    decreases ps.len(),
{
    if j > 0 {
        assert(!matches_type_name(ps[0], name));
        assert(forall|k: int| 1 <= k < ps.len() ==> ps.skip(1)[k - 1] == #[trigger] ps[k]);
        lemma_find_type_idx_unique(ps.skip(1), name, j - 1);
    }
}

/// A type parameter with `extra` appended after its own bounds, in order and
/// without deduplication.
pub open spec fn with_extra_bounds(p: ParamModel, extra: Seq<Seq<u8>>) -> ParamModel {
    match p {
        ParamModel::Type { name, bounds } => ParamModel::Type { name, bounds: bounds + extra },
        _ => p,
    }
}

/// Merging one stored parameter into a target parameter list:
/// a lifetime or const parameter is appended unconditionally; a type
/// parameter merges its bounds into the first target type parameter of the
/// same name, or is appended if the target has none.
pub open spec fn merge_one(tgt: Seq<ParamModel>, p: ParamModel) -> Seq<ParamModel> {
    match p {
        ParamModel::Type { name, bounds } => match find_type_idx(tgt, name) {
            Some(j) => tgt.update(j, with_extra_bounds(tgt[j], bounds)),
            None => tgt.push(p),
        },
        _ => tgt.push(p),
    }
}

/// Merging a whole stored parameter list, left to right.
pub open spec fn merge_params(tgt: Seq<ParamModel>, stored: Seq<ParamModel>) -> Seq<ParamModel>
    decreases stored.len(),
{
    if stored.len() == 0 {
        tgt
    } else {
        merge_params(merge_one(tgt, stored[0]), stored.skip(1))
    }
}

/// Merging stored where-clause predicates: an empty stored clause leaves the
/// target untouched (no clause is created); otherwise the target gets a
/// clause if it had none, and the stored predicates go after its own.
pub open spec fn merge_preds(tgt: Option<Seq<Seq<u8>>>, stored: Seq<Seq<u8>>) -> Option<
    Seq<Seq<u8>>,
> {
    if stored.len() == 0 {
        tgt
    } else {
        match tgt {
            None => Some(stored),
            Some(t) => Some(t + stored),
        }
    }
}

/// The effect of splicing one bound set into a target declaration.
pub open spec fn splice_one(t: TargetModel, b: BoundSetModel) -> TargetModel {
    TargetModel {
        params: merge_params(t.params, b.params),
        where_preds: merge_preds(t.where_preds, b.preds),
    }
}

/// The effect of splicing a list of bound sets, in the order given.
pub open spec fn splice_all(t: TargetModel, sets: Seq<BoundSetModel>) -> TargetModel
    decreases sets.len(),
{
    if sets.len() == 0 {
        t
    } else {
        splice_all(splice_one(t, sets[0]), sets.skip(1))
    }
}

/// Byte-string equality.
pub fn bytes_eq(a: &Vec<u8>, b: &Vec<u8>) -> (r: bool)
    ensures
        r == (a@ == b@),
{
    if a.len() != b.len() {
        assert(a@ != b@);
        return false;
    }
    let mut i: usize = 0;
    while i < a.len()
        invariant
            0 <= i <= a@.len(),
            a@.len() == b@.len(),
            forall|k: int| 0 <= k < i ==> a@[k] == b@[k],
        decreases a@.len() - i,
    {
        if a[i] != b[i] {
            return false;
        }
        i += 1;
    }
    assert(a@ =~= b@);
    true
}

/// A fresh copy of a byte string.
pub fn copy_bytes(a: &Vec<u8>) -> (r: Vec<u8>)
    ensures
        r@ == a@,
{
    let mut r: Vec<u8> = Vec::new();
    let mut i: usize = 0;
    while i < a.len()
        invariant
            0 <= i <= a@.len(),
            r@ == a@.subrange(0, i as int),
        decreases a@.len() - i,
    {
        r.push(a[i]);
        assert(r@ =~= a@.subrange(0, i + 1));
        i += 1;
    }
    assert(a@.subrange(0, a@.len() as int) =~= a@);
    r
}

/// Index of the first type parameter of `target` named `name`, if any.
fn find_type(target: &Vec<GenericParam>, name: &Vec<u8>) -> (r: Option<usize>)
    ensures
        match find_type_idx(target.deep_view(), name@) {
            Some(j) => r matches Some(rj) && rj == j,
            None => r is None,
        },
{
    let ghost dv = target.deep_view();
    let mut i: usize = 0;
    while i < target.len()
        invariant
            0 <= i <= target@.len(),
            dv == target.deep_view(),
            dv.len() == target@.len(),
            forall|k: int| 0 <= k < i ==> !matches_type_name(#[trigger] dv[k], name@),
        decreases target@.len() - i,
    {
        let hit = match &target[i] {
            GenericParam::Type { name: tn, .. } => bytes_eq(tn, name),
            _ => false,
        };
        proof {
            assert(dv[i as int] == target@[i as int]@);
        }
        if hit {
            proof {
                lemma_find_type_idx_unique(dv, name@, i as int);
            }
            return Some(i);
        }
        assert(!matches_type_name(dv[i as int], name@));
        i += 1;
    }
    proof {
        lemma_find_type_idx_props(dv, name@);
    }
    None
}

/// Merges one stored parameter into the target parameter list.
fn apply_param(target: &mut Vec<GenericParam>, p: GenericParam)
    ensures
        final(target).deep_view() == merge_one(old(target).deep_view(), p@),
{
    let ghost old_dv = target.deep_view();
    let is_type = matches!(p, GenericParam::Type { .. });
    if !is_type {
        target.push(p);
        assert(target.deep_view() =~= old_dv.push(p@));
        return ;
    }
    match p {
        GenericParam::Type { name, bounds } => {
            match find_type(target, &name) {
                None => {
                    target.push(GenericParam::Type { name, bounds });
                    assert(target.deep_view() =~= old_dv.push(
                        ParamModel::Type { name: name@, bounds: bounds.deep_view() },
                    ));
                },
                Some(j) => {
                    proof {
                        lemma_find_type_idx_props(old_dv, name@);
                    }
                    let elem = target.remove(j);
                    match elem {
                        GenericParam::Type { name: en, bounds: mut eb } => {
                            let ghost eb_old = eb.deep_view();
                            let mut extra = bounds;
                            eb.append(&mut extra);
                            proof {
                                assert forall|k: int| 0 <= k < eb@.len() implies eb.deep_view()[k]
                                    == (eb_old + bounds.deep_view())[k] by {
                                    assert(eb.deep_view()[k] == eb@[k]@);
                                }
                                assert(eb.deep_view() =~= eb_old + bounds.deep_view());
                            }
                            let merged = GenericParam::Type { name: en, bounds: eb };
                            proof {
                                assert(merged@ == with_extra_bounds(
                                    old_dv[j as int],
                                    bounds.deep_view(),
                                ));
                            }
                            target.insert(j, merged);
                            proof {
                                let goal = old_dv.update(
                                    j as int,
                                    with_extra_bounds(old_dv[j as int], bounds.deep_view()),
                                );
                                assert forall|k: int| 0 <= k < target@.len() implies
                                    target.deep_view()[k] == goal[k] by {
                                    assert(target.deep_view()[k] == target@[k]@);
                                    assert(target@ == old(target)@.remove(j as int).insert(
                                        j as int,
                                        merged,
                                    ));
                                    if k < j {
                                        assert(target@[k] == old(target)@[k]);
                                    } else if k == j {
                                        assert(target@[k] == merged);
                                    } else {
                                        assert(target@[k] == old(target)@[k]);
                                    }
                                }
                                assert(target.deep_view() =~= goal);
                            }
                        },
                        _ => {
                            proof {
                                assert(elem@ == old_dv[j as int]);
                                assert(false);
                            }
                        },
                    }
                },
            }
        },
        _ => {
            proof {
                assert(false);
            }
        },
    }
}

/// Merges a whole stored parameter list into the target, left to right.
pub fn splice_params(target: &mut Vec<GenericParam>, stored: Vec<GenericParam>)
    ensures
        final(target).deep_view() == merge_params(old(target).deep_view(), stored.deep_view()),
{
    let ghost goal = merge_params(old(target).deep_view(), stored.deep_view());
    let mut rest = stored;
    while rest.len() > 0
        invariant
            goal == merge_params(target.deep_view(), rest.deep_view()),
        decreases rest@.len(),
    {
        let ghost rv_before = rest@;
        let ghost rdv_before = rest.deep_view();
        let ghost tdv_before = target.deep_view();
        let p = rest.remove(0);
        proof {
            assert(rdv_before.len() == rv_before.len());
            assert(p@ == rdv_before[0]);
            assert forall|k: int| 0 <= k < rest@.len() implies rest.deep_view()[k]
                == rdv_before.skip(1)[k] by {
                assert(rest.deep_view()[k] == rest@[k]@);
                assert(rest@[k] == rv_before.remove(0)[k]);
                assert(rv_before.remove(0)[k] == rv_before[k + 1]);
            }
            assert(rest.deep_view() =~= rdv_before.skip(1));
        }
        apply_param(target, p);
        proof {
            assert(target.deep_view() == merge_one(tdv_before, rdv_before[0]));
            assert(merge_params(tdv_before, rdv_before) == merge_params(
                merge_one(tdv_before, rdv_before[0]),
                rdv_before.skip(1),
            ));
        }
    }
    proof {
        assert(rest.deep_view() =~= Seq::<ParamModel>::empty());
    }
}

} // verus!

verus! {

/// Splices one stored bound set into the target: merges its parameters, then
/// appends its where-clause predicates, creating the clause if need be.
pub fn splice_set(target: &mut TargetGenerics, params: Vec<GenericParam>, preds: Vec<Vec<u8>>)
    ensures
        final(target)@ == splice_one(
            old(target)@,
            BoundSetModel { params: params.deep_view(), preds: preds.deep_view() },
        ),
{
    let ghost old_model = target@;
    let ghost stored_preds = preds.deep_view();
    splice_params(&mut target.params, params);
    if preds.len() > 0 {
        let mut extra = preds;
        let old_wp = target.where_preds.take();
        match old_wp {
            None => {
                target.where_preds = Some(extra);
                proof {
                    assert(target@.where_preds matches Some(w) && w =~= merge_preds(
                        old_model.where_preds,
                        stored_preds,
                    )->Some_0);
                }
            },
            Some(mut t) => {
                let ghost t_old = t.deep_view();
                t.append(&mut extra);
                proof {
                    assert forall|k: int| 0 <= k < t@.len() implies t.deep_view()[k] == (t_old
                        + stored_preds)[k] by {
                        assert(t.deep_view()[k] == t@[k]@);
                    }
                    assert(t.deep_view() =~= t_old + stored_preds);
                }
                target.where_preds = Some(t);
            },
        }
    }
    proof {
        assert(stored_preds.len() == 0 ==> preds.deep_view() =~= Seq::<Seq<u8>>::empty());
        assert(target@.params == splice_one(
            old_model,
            BoundSetModel { params: params.deep_view(), preds: stored_preds },
        ).params);
        assert(target@.where_preds == merge_preds(old_model.where_preds, stored_preds));
    }
}

} // verus!

verus! {

/// The bound sets a name list refers to, in order, under mapping `m`.
pub open spec fn sets_of(m: Map<Seq<u8>, BoundSetModel>, names: Seq<Seq<u8>>) -> Seq<
    BoundSetModel,
> {
    Seq::new(names.len(), |i: int| m[names[i]])
}

pub proof fn lemma_splice_all_snoc(t: TargetModel, sets: Seq<BoundSetModel>, b: BoundSetModel)
    ensures
        splice_all(t, sets.push(b)) == splice_one(splice_all(t, sets), b),
    decreases sets.len(),
{
    if sets.len() == 0 {
        assert(sets.push(b)[0] == b);
        assert(sets.push(b).skip(1) =~= Seq::<BoundSetModel>::empty());
        assert(sets =~= Seq::<BoundSetModel>::empty());
        assert(splice_all(splice_one(t, b), Seq::<BoundSetModel>::empty()) == splice_one(t, b));
        assert(splice_all(t, Seq::<BoundSetModel>::empty()) == t);
    } else {
        assert(sets.push(b)[0] == sets[0]);
        assert(sets.push(b).skip(1) =~= sets.skip(1).push(b));
        lemma_splice_all_snoc(splice_one(t, sets[0]), sets.skip(1), b);
    }
}

/// Every listed name is present in the mapping.
pub open spec fn names_known(m: Map<Seq<u8>, BoundSetModel>, ns: Seq<Seq<u8>>) -> bool {
    forall|i: int| 0 <= i < ns.len() ==> m.contains_key(#[trigger] ns[i])
}

/// A splice stopped at the first unregistered name: the error names it, and
/// the target carries exactly the sets named before it.
pub open spec fn splice_stopped(
    m: Map<Seq<u8>, BoundSetModel>,
    ns: Seq<Seq<u8>>,
    t0: TargetModel,
    t1: TargetModel,
    e: Error,
) -> bool {
    exists|i: int|
        {
            &&& 0 <= i < ns.len()
            &&& !m.contains_key(ns[i])
            &&& forall|k: int| 0 <= k < i ==> m.contains_key(#[trigger] ns[k])
            &&& e matches Error::UnknownBound { name: n } && n@ == ns[i]
            &&& t1 == splice_all(t0, sets_of(m, ns.take(i)))
        }
}

/// Splices the named bound sets into the target, left to right. Fails with
/// `NotYetRegistered` before any registration, and with `UnknownBound` at the
/// first name the registration did not carry, the earlier names already
/// applied; on success the target carries every named set, in order.
pub fn splice(
    registry: &crate::registry::Registry,
    names: &Vec<Vec<u8>>,
    target: &mut TargetGenerics,
) -> (r: Result<(), Error>)
    requires
        registry.wf(),
    ensures
        !registry.is_registered() ==> (r matches Err(e) && e == Error::NotYetRegistered
            && *final(target) == *old(target)),
        registry.is_registered() && names_known(registry@, names.deep_view()) ==> (r matches Ok(_)
            && final(target)@ == splice_all(
            old(target)@,
            sets_of(registry@, names.deep_view()),
        )),
        registry.is_registered() && !names_known(registry@, names.deep_view()) ==> (r matches Err(
            e,
        ) && splice_stopped(registry@, names.deep_view(), old(target)@, final(target)@, e)),
{
    let ghost ns = names.deep_view();
    let ghost m = registry@;
    proof {
        assert(ns.len() == names@.len());
        assert(forall|k: int| 0 <= k < names@.len() ==> #[trigger] ns[k] == names@[k]@);
    }
    if !registry.registered_flag() {
        return Err(Error::NotYetRegistered);
    }
    let mut i: usize = 0;
    while i < names.len()
        invariant
            0 <= i <= names@.len(),
            registry.wf(),
            registry.is_registered(),
            m == registry@,
            ns == names.deep_view(),
            ns.len() == names@.len(),
            forall|k: int| 0 <= k < names@.len() ==> #[trigger] ns[k] == names@[k]@,
            forall|k: int| 0 <= k < i ==> m.contains_key(#[trigger] ns[k]),
            target@ == splice_all(old(target)@, sets_of(m, ns.take(i as int))),
        decreases names@.len() - i,
    {
        match registry.lookup(&names[i]) {
            Ok((ps, preds)) => {
                let ghost tgt_before = target@;
                proof {
                    assert(m.contains_key(ns[i as int]));
                    assert(ps.deep_view() == m[ns[i as int]].params);
                    assert(preds.deep_view() == m[ns[i as int]].preds);
                }
                splice_set(target, ps, preds);
                proof {
                    let b = m[ns[i as int]];
                    assert(target@ == splice_one(tgt_before, b));
                    lemma_splice_all_snoc(old(target)@, sets_of(m, ns.take(i as int)), b);
                    assert(sets_of(m, ns.take(i + 1)) =~= sets_of(m, ns.take(i as int)).push(b));
                }
            },
            Err(e) => {
                proof {
                    assert(!m.contains_key(ns[i as int]));
                    assert(e matches Error::UnknownBound { name: n } && n@ == ns[i as int]);
                }
                return Err(e);
            },
        }
        i += 1;
    }
    proof {
        assert(ns.take(i as int) =~= ns);
    }
    Ok(())
}

} // verus!

verus! {

/// The predicate sequence of an optional where-clause, the empty sequence for
/// an absent one.
pub open spec fn opt_seq(o: Option<Seq<Seq<u8>>>) -> Seq<Seq<u8>> {
    match o {
        Some(s) => s,
        None => Seq::empty(),
    }
}

/// Where-clause concatenation law: splicing a bound set that carries
/// predicates into a target without a where-clause yields exactly those
/// predicates; into a target with predicates, the target's own predicates
/// followed by the stored ones, in order.
pub proof fn lemma_where_concat(t: TargetModel, b: BoundSetModel)
    requires
        b.preds.len() > 0,
    ensures
        t.where_preds is None ==> splice_one(t, b).where_preds == Some(b.preds),
        t.where_preds matches Some(q) ==> splice_one(t, b).where_preds == Some(q + b.preds),
{
}

/// No type parameter in `ps` repeats a type-parameter name seen earlier in it.
pub open spec fn type_names_distinct(ps: Seq<ParamModel>) -> bool {
    forall|i: int, j: int| 0 <= i < j < ps.len() ==> !(#[trigger] ps[i] matches ParamModel::Type {
        name: a,
        ..
    } && #[trigger] ps[j] matches ParamModel::Type { name: b, .. } && a == b)
}

/// When no stored parameter shares a type-parameter name with the target or
/// with an earlier stored parameter, merging is plain appending in order.
pub proof fn lemma_merge_append(tgt: Seq<ParamModel>, stored: Seq<ParamModel>)
    requires
        type_names_distinct(tgt + stored),
    ensures
        merge_params(tgt, stored) == tgt + stored,
    decreases stored.len(),
{
    if stored.len() == 0 {
        assert(tgt + stored =~= tgt);
    } else {
        let p0 = stored[0];
        let all = tgt + stored;
        assert(forall|k: int| 0 <= k < tgt.len() ==> all[k] == #[trigger] tgt[k]);
        assert(all[tgt.len() as int] == p0);
        match p0 {
            ParamModel::Type { name, bounds } => {
                lemma_find_type_idx_props(tgt, name);
                match find_type_idx(tgt, name) {
                    Some(j) => {
                        assert(matches_type_name(tgt[j], name));
                        assert(!(all[j] matches ParamModel::Type { name: a, .. } && all[
                            tgt.len() as int
                        ] matches ParamModel::Type { name: b, .. } && a == b));
                        assert(false);
                    },
                    None => {},
                }
                assert(merge_one(tgt, p0) == tgt.push(p0));
            },
            _ => {},
        }
        let tgt2 = tgt.push(p0);
        assert(tgt2 + stored.skip(1) =~= all);
        lemma_merge_append(tgt2, stored.skip(1));
        assert(merge_params(tgt, stored) == merge_params(tgt2, stored.skip(1)));
        assert(tgt + stored =~= tgt2 + stored.skip(1));
    }
}

/// Multi-bound order law: splicing two bound sets whose type-parameter names
/// are disjoint from the target's and from each other's puts the first set's
/// parameters fully before the second set's, and likewise its predicates.
pub proof fn lemma_multi_bound_order(t: TargetModel, a: BoundSetModel, b: BoundSetModel)
    requires
        type_names_distinct(t.params + a.params + b.params),
    ensures
        splice_all(t, seq![a, b]).params == t.params + a.params + b.params,
        a.preds.len() + b.preds.len() > 0 ==> splice_all(t, seq![a, b]).where_preds == Some(
            opt_seq(t.where_preds) + a.preds + b.preds,
        ),
        a.preds.len() + b.preds.len() == 0 ==> splice_all(t, seq![a, b]).where_preds
            == t.where_preds,
{
    let s = seq![a, b];
    assert(s[0] == a && s[1] == b);
    assert(s.skip(1) =~= seq![b]);
    assert(seq![b].skip(1) =~= Seq::<BoundSetModel>::empty());
    let t1 = splice_one(t, a);
    assert(splice_all(t, s) == splice_all(t1, seq![b]));
    assert(splice_all(t1, seq![b]) == splice_all(splice_one(t1, b), Seq::<BoundSetModel>::empty()));
    assert(splice_all(t, s) == splice_one(splice_one(t, a), b));
    assert(type_names_distinct(t.params + a.params)) by {
        let pre = t.params + a.params;
        let all = t.params + a.params + b.params;
        assert forall|i: int, j: int| 0 <= i < j < pre.len() implies !(#[trigger] pre[i]
            matches ParamModel::Type { name: x, .. } && #[trigger] pre[j]
            matches ParamModel::Type { name: y, .. } && x == y) by {
            assert(pre[i] == all[i]);
            assert(pre[j] == all[j]);
        }
    }
    lemma_merge_append(t.params, a.params);
    assert(t1.params == t.params + a.params);
    lemma_merge_append(t1.params, b.params);
    assert(splice_all(t, s).params == t.params + a.params + b.params);
    if a.preds.len() == 0 {
        assert(opt_seq(t.where_preds) + a.preds =~= opt_seq(t.where_preds));
        if b.preds.len() > 0 {
            match t.where_preds {
                None => {
                    assert(opt_seq(t.where_preds) + a.preds + b.preds =~= b.preds);
                },
                Some(q) => {},
            }
        }
    } else {
        match t.where_preds {
            None => {
                assert(t1.where_preds == Some(a.preds));
                if b.preds.len() > 0 {
                    assert(opt_seq(t.where_preds) + a.preds + b.preds =~= a.preds + b.preds);
                } else {
                    assert(opt_seq(t.where_preds) + a.preds + b.preds =~= a.preds);
                }
            },
            Some(q) => {},
        }
    }
}

/// No-dedup law for non-type parameters: a stored lifetime or const parameter
/// is appended unconditionally, so a lifetime the target already declares
/// stands twice in the result. This is deliberate: duplicate lifetime or
/// const names are left for the host compiler to reject.
pub proof fn lemma_lifetime_no_dedup(tgt: Seq<ParamModel>, name: Seq<u8>)
    ensures
        merge_one(tgt, ParamModel::Lifetime { name }) == tgt.push(ParamModel::Lifetime { name }),
        forall|i: int| 0 <= i < tgt.len() && tgt[i] == (ParamModel::Lifetime { name })
            ==> merge_one(tgt, ParamModel::Lifetime { name })[i] == (ParamModel::Lifetime { name })
            && merge_one(tgt, ParamModel::Lifetime { name })[tgt.len() as int] == (
        ParamModel::Lifetime { name }),
{
}

} // verus!
