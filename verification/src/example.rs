use vstd::prelude::*;
use crate::ast::{BoundDecl, BoundSetModel, GenericParam, ParamModel, TargetGenerics};
use crate::registry::Registry;
use crate::splice::{
    lemma_merge_append, merge_params, sets_of, splice, splice_all, splice_one, type_names_distinct,
};

verus! {

// The engine's motivating example, carried through end to end: a `Polygon`
// bound set `<'a, F: 'a + Float, P: Polygon<'a, F>>` stored once and spliced
// into the declaration `fn area(polygon: P) -> F`, which has no generics of
// its own.

/// The name `Polygon`.
pub open spec fn polygon_name() -> Seq<u8> {
    seq![80u8, 111u8, 108u8, 121u8, 103u8, 111u8, 110u8]
}

/// The parameters the `area` declaration ends up with: the lifetime `'a`,
/// `F: 'a + Float`, and `P: Polygon<'a, F>`, in the stored order.
pub open spec fn area_params() -> Seq<ParamModel> {
    seq![
        ParamModel::Lifetime { name: seq![97u8] },
        ParamModel::Type {
            name: seq![70u8],
            bounds: seq![seq![39u8, 97u8], seq![70u8, 108u8, 111u8, 97u8, 116u8]],
        },
        ParamModel::Type {
            name: seq![80u8],
            bounds: seq![
                seq![
                    80u8, 111u8, 108u8, 121u8, 103u8, 111u8, 110u8, 60u8, 39u8, 97u8, 44u8, 32u8,
                    70u8, 62u8,
                ],
            ],
        },
    ]
}

/// Builds, registers and splices the example bound set into the `area`
/// declaration's empty generics, and returns those generics: exactly the
/// stored parameters, in order, and no where-clause.
pub fn area() -> (t: TargetGenerics)
    ensures
        t@.params == area_params(),
        t@.where_preds is None,
{
    let name: Vec<u8> = vec![80u8, 111u8, 108u8, 121u8, 103u8, 111u8, 110u8];
    let lt: Vec<u8> = vec![97u8];
    let f_name: Vec<u8> = vec![70u8];
    let f_bound_lt: Vec<u8> = vec![39u8, 97u8];
    let f_bound_float: Vec<u8> = vec![70u8, 108u8, 111u8, 97u8, 116u8];
    let p_name: Vec<u8> = vec![80u8];
    let p_bound: Vec<u8> = vec![
        80u8, 111u8, 108u8, 121u8, 103u8, 111u8, 110u8, 60u8, 39u8, 97u8, 44u8, 32u8, 70u8, 62u8,
    ];
    proof {
        assert(name@ =~= polygon_name());
        assert(lt@ =~= seq![97u8]);
        assert(f_name@ =~= seq![70u8]);
        assert(f_bound_lt@ =~= seq![39u8, 97u8]);
        assert(f_bound_float@ =~= seq![70u8, 108u8, 111u8, 97u8, 116u8]);
        assert(p_name@ =~= seq![80u8]);
        assert(p_bound@ =~= seq![
            80u8, 111u8, 108u8, 121u8, 103u8, 111u8, 110u8, 60u8, 39u8, 97u8, 44u8, 32u8, 70u8,
            62u8,
        ]);
        assert(f_bound_lt.deep_view() =~= f_bound_lt@);
        assert(f_bound_float.deep_view() =~= f_bound_float@);
        assert(p_bound.deep_view() =~= p_bound@);
    }
    let mut params: Vec<GenericParam> = Vec::new();
    params.push(GenericParam::Lifetime { name: lt });
    let mut f_bounds: Vec<Vec<u8>> = Vec::new();
    f_bounds.push(f_bound_lt);
    f_bounds.push(f_bound_float);
    proof {
        assert(f_bounds.deep_view() =~= seq![
            seq![39u8, 97u8],
            seq![70u8, 108u8, 111u8, 97u8, 116u8],
        ]);
    }
    params.push(GenericParam::Type { name: f_name, bounds: f_bounds });
    let mut p_bounds: Vec<Vec<u8>> = Vec::new();
    p_bounds.push(p_bound);
    proof {
        assert(p_bounds.deep_view() =~= seq![
            seq![
                80u8, 111u8, 108u8, 121u8, 103u8, 111u8, 110u8, 60u8, 39u8, 97u8, 44u8, 32u8, 70u8,
                62u8,
            ],
        ]);
    }
    params.push(GenericParam::Type { name: p_name, bounds: p_bounds });
    proof {
        assert(params@.len() == 3);
        assert(params.deep_view()[0] == params@[0]@);
        assert(params.deep_view()[1] == params@[1]@);
        assert(params.deep_view()[2] == params@[2]@);
        assert(params@[0]@ == area_params()[0]);
        assert(params@[1]@ == area_params()[1]);
        assert(params@[2]@ == area_params()[2]);
        assert(params.deep_view() =~= area_params());
    }
    let decl = BoundDecl { name, params, preds: Vec::new() };
    let ghost decl_model = decl@;
    proof {
        assert(decl_model.name == polygon_name());
        assert(decl_model.set.params == area_params());
        assert(decl_model.set.preds =~= Seq::<Seq<u8>>::empty());
    }
    let mut registry = Registry::new();
    let mut batch: Vec<BoundDecl> = Vec::new();
    batch.push(decl);
    proof {
        assert(batch.deep_view() =~= seq![decl_model]);
        assert(!crate::registry::has_dup_name(seq![decl_model]));
    }
    let reg_result = registry.register(batch);
    let ghost m = registry@;
    proof {
        assert(reg_result is Ok);
        assert(m == crate::registry::decls_map(seq![decl_model]));
        crate::registry::lemma_decls_map_props(seq![decl_model]);
        assert(seq![decl_model][0].name == polygon_name());
        assert(m.contains_key(polygon_name()));
        assert(m[polygon_name()] == decl_model.set);
    }
    let mut target = TargetGenerics { params: Vec::new(), where_preds: None };
    let ghost t0 = target@;
    let mut names: Vec<Vec<u8>> = Vec::new();
    let polygon_ref: Vec<u8> = vec![80u8, 111u8, 108u8, 121u8, 103u8, 111u8, 110u8];
    proof {
        assert(polygon_ref@ =~= polygon_name());
        assert(polygon_ref.deep_view() =~= polygon_ref@);
    }
    names.push(polygon_ref);
    proof {
        assert(names.deep_view() =~= seq![polygon_name()]);
    }
    let splice_result = splice(&registry, &names, &mut target);
    proof {
        let ns = seq![polygon_name()];
        assert(forall|i: int| 0 <= i < ns.len() ==> m.contains_key(#[trigger] ns[i]));
        assert(splice_result is Ok);
        let sets = sets_of(m, ns);
        assert(sets.len() == 1);
        assert(sets[0] == decl_model.set);
        assert(sets.skip(1) =~= Seq::<BoundSetModel>::empty());
        let t1 = splice_one(t0, decl_model.set);
        assert(splice_all(t0, sets) == splice_all(t1, Seq::<BoundSetModel>::empty()));
        assert(splice_all(t1, Seq::<BoundSetModel>::empty()) == t1);
        // the empty target takes the stored parameters unchanged, in order
        let ap = area_params();
        assert(seq![70u8] != seq![80u8]) by {
            assert(seq![70u8][0] == 70u8);
            assert(seq![80u8][0] == 80u8);
        }
        assert(type_names_distinct(t0.params + ap)) by {
            let all = t0.params + ap;
            assert(all =~= ap);
            assert forall|i: int, j: int| 0 <= i < j < all.len() implies !(#[trigger] all[i]
                matches ParamModel::Type { name: a, .. } && #[trigger] all[j]
                matches ParamModel::Type { name: b, .. } && a == b) by {
                assert(all[i] == ap[i] && all[j] == ap[j]);
                if i == 0 {
                    assert(!(ap[0] matches ParamModel::Type { .. }));
                } else {
                    assert(i == 1 && j == 2);
                }
            }
        }
        lemma_merge_append(t0.params, ap);
        assert(merge_params(t0.params, ap) == t0.params + ap);
        assert(t0.params + ap =~= ap);
        assert(t1.params == ap);
        assert(t1.where_preds is None);
    }
    target
}

} // verus!
