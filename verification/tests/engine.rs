use bounds_store::ast::{BoundDecl, Error, GenericParam, TargetGenerics};
use bounds_store::registry::Registry;
use bounds_store::{bound_alias, bounds, check_name};

fn b(s: &str) -> Vec<u8> {
    s.as_bytes().to_vec()
}

fn lifetime(name: &str) -> GenericParam {
    GenericParam::Lifetime { name: b(name) }
}

fn type_param(name: &str, bounds_list: &[&str]) -> GenericParam {
    GenericParam::Type {
        name: b(name),
        bounds: bounds_list.iter().map(|s| b(s)).collect(),
    }
}

fn empty_target() -> TargetGenerics {
    TargetGenerics { params: Vec::new(), where_preds: None }
}

/// End-to-end scenarios: splicing into declarations with and without their
/// own generics, merging shared type parameters, carrying a where-clause,
/// and the two fatal misuses.
#[test]
fn test() {
    // a bound set spliced into a declaration without generics of its own
    let mut reg = Registry::new();
    bounds(&mut reg, &b("Polygon => <'a, F: 'a + Float, P: Polygon<'a, F>>")).unwrap();
    let mut target = empty_target();
    bound_alias(&reg, &b("Polygon"), &mut target).unwrap();
    assert_eq!(
        target.params,
        vec![
            lifetime("a"),
            type_param("F", &["'a", "Float"]),
            type_param("P", &["Polygon<'a, F>"]),
        ]
    );
    assert!(target.where_preds.is_none());

    // a declaration that already carries another generic parameter
    let mut target = TargetGenerics {
        params: vec![type_param("G", &["Copy"])],
        where_preds: None,
    };
    bound_alias(&reg, &b("Polygon"), &mut target).unwrap();
    assert_eq!(
        target.params,
        vec![
            type_param("G", &["Copy"]),
            lifetime("a"),
            type_param("F", &["'a", "Float"]),
            type_param("P", &["Polygon<'a, F>"]),
        ]
    );

    // a declaration sharing a type parameter: the bound lists merge
    let mut target = TargetGenerics {
        params: vec![type_param("F", &["Copy"])],
        where_preds: None,
    };
    bound_alias(&reg, &b("Polygon"), &mut target).unwrap();
    assert_eq!(
        target.params,
        vec![
            type_param("F", &["Copy", "'a", "Float"]),
            lifetime("a"),
            type_param("P", &["Polygon<'a, F>"]),
        ]
    );

    // a bound set carrying a where-clause
    let mut reg = Registry::new();
    bounds(
        &mut reg,
        &b("Polygon => <F: Float, P: Polygon<F>>\n        where for<'a> &'a P: IntoIterator<Item = &'a Point<F>>;"),
    )
    .unwrap();
    let mut target = empty_target();
    bound_alias(&reg, &b("Polygon"), &mut target).unwrap();
    assert_eq!(
        target.params,
        vec![type_param("F", &["Float"]), type_param("P", &["Polygon<F>"])]
    );
    assert_eq!(
        target.where_preds,
        Some(vec![b("for<'a> &'a P: IntoIterator<Item = &'a Point<F>>")])
    );

    // a second registration in the same context is refused
    let err = bounds(&mut reg, &b("Other => <T>")).unwrap_err();
    assert_eq!(err, Error::AlreadyRegistered);

    // an unregistered name is refused and named
    let mut target = empty_target();
    let err = bound_alias(&reg, &b("Undefined"), &mut target).unwrap_err();
    assert_eq!(err, Error::UnknownBound { name: b("Undefined") });
}

/// Serialize-then-reparse yields a structurally identical parameter list and
/// predicate list.
#[test]
fn serialization_round_trip() {
    let params = vec![
        lifetime("a"),
        type_param("F", &["'a", "Float"]),
        type_param("Empty", &[]),
        GenericParam::Const { name: b("N"), ty: b("usize"), default: Some(b("4")) },
        GenericParam::Const { name: b("M"), ty: b("u8"), default: None },
        type_param("P", &["Polygon<'a, F>"]),
    ];
    let encoded = bounds_store::codec::encode_params(&params);
    let decoded = bounds_store::codec::decode_params(&encoded).unwrap();
    assert_eq!(decoded, params);

    let preds = vec![b("F: 'a + Float"), b("for<'a> &'a P: Iter")];
    let encoded = bounds_store::codec::encode_preds(&preds);
    let decoded = bounds_store::codec::decode_preds(&encoded).unwrap();
    assert_eq!(decoded, preds);

    // a buffer that is no serialization is rejected, not misread
    assert!(bounds_store::codec::decode_params(&b("garbage")).is_none());
    assert!(bounds_store::codec::decode_preds(&b("")).is_none());
}

/// Registering twice in one context fails with `AlreadyRegistered`,
/// whatever either call carries.
#[test]
fn single_registration() {
    let mut reg = Registry::new();
    bounds(&mut reg, &b("A => <T: Clone>")).unwrap();
    let err = bounds(&mut reg, &b("B => <U>")).unwrap_err();
    assert_eq!(err, Error::AlreadyRegistered);
    // even re-registering the identical batch is refused
    let err = bounds(&mut reg, &b("A => <T: Clone>")).unwrap_err();
    assert_eq!(err, Error::AlreadyRegistered);
    // and so is a second call whose content is not even well-formed
    let err = bounds(&mut reg, &b("not a declaration")).unwrap_err();
    assert_eq!(err, Error::AlreadyRegistered);
}

/// Two entries named alike in one batch fail with `DuplicateName`.
#[test]
fn duplicate_name_rejected() {
    let mut reg = Registry::new();
    let err = bounds(&mut reg, &b("X => <T>; X => <U>")).unwrap_err();
    assert_eq!(err, Error::DuplicateName { name: b("X") });
    // nothing was registered by the failed batch
    let mut target = empty_target();
    let err = bound_alias(&reg, &b("X"), &mut target).unwrap_err();
    assert_eq!(err, Error::NotYetRegistered);
}

/// Splicing a name that was never registered fails with `UnknownBound`
/// naming it, and the names before it are already applied.
#[test]
fn unknown_bound_rejected() {
    let mut reg = Registry::new();
    bounds(&mut reg, &b("Known => <T: Clone>")).unwrap();
    let mut target = empty_target();
    let err = bound_alias(&reg, &b("Known, Missing"), &mut target).unwrap_err();
    assert_eq!(err, Error::UnknownBound { name: b("Missing") });
    // fail-fast: the earlier name was already spliced in
    assert_eq!(target.params, vec![type_param("T", &["Clone"])]);
}

/// The merge-determinism scenario: target bounds first, stored bounds
/// appended; the stored lifetime and new type parameter appended after the
/// target's own parameters, in the stored order.
#[test]
fn merge_determinism() {
    let mut reg = Registry::new();
    bounds(&mut reg, &b("B => <'a, F: Float, P: Poly<'a,F>>")).unwrap();
    let run = || {
        let mut target = TargetGenerics {
            params: vec![type_param("F", &["OtherTrait"])],
            where_preds: None,
        };
        bound_alias(&reg, &b("B"), &mut target).unwrap();
        target
    };
    let first = run();
    assert_eq!(
        first.params,
        vec![
            type_param("F", &["OtherTrait", "Float"]),
            lifetime("a"),
            type_param("P", &["Poly<'a,F>"]),
        ]
    );
    assert!(first.where_preds.is_none());
    // re-running with the same inputs yields the identical declaration
    assert_eq!(run(), first);
}

/// Where-clause concatenation: into a target without a clause, exactly the
/// stored predicate; into a target with predicate Q, the order Q, stored.
#[test]
fn where_clause_concatenation() {
    let mut reg = Registry::new();
    bounds(&mut reg, &b("W => <P> where for<'a> &'a P: Iter;")).unwrap();

    let mut bare = empty_target();
    bound_alias(&reg, &b("W"), &mut bare).unwrap();
    assert_eq!(bare.where_preds, Some(vec![b("for<'a> &'a P: Iter")]));

    let mut with_q = TargetGenerics {
        params: Vec::new(),
        where_preds: Some(vec![b("Q")]),
    };
    bound_alias(&reg, &b("W"), &mut with_q).unwrap();
    assert_eq!(with_q.where_preds, Some(vec![b("Q"), b("for<'a> &'a P: Iter")]));
}

/// Splicing `["A", "B"]` puts A's parameters and predicates fully before
/// B's in the output.
#[test]
fn multi_bound_order() {
    let mut reg = Registry::new();
    bounds(
        &mut reg,
        &b("A => <T: Clone> where T: Send; B => <'b, U> where U: Sync;"),
    )
    .unwrap();
    let mut target = empty_target();
    bound_alias(&reg, &b("A, B"), &mut target).unwrap();
    assert_eq!(
        target.params,
        vec![type_param("T", &["Clone"]), lifetime("b"), type_param("U", &[])]
    );
    assert_eq!(target.where_preds, Some(vec![b("T: Send"), b("U: Sync")]));
}

/// A stored lifetime already declared by the target is appended anyway:
/// duplicate lifetimes are left for the host compiler to reject.
#[test]
fn no_dedup_for_lifetimes() {
    let mut reg = Registry::new();
    bounds(&mut reg, &b("L => <'a>")).unwrap();
    let mut target = TargetGenerics { params: vec![lifetime("a")], where_preds: None };
    bound_alias(&reg, &b("L"), &mut target).unwrap();
    assert_eq!(target.params, vec![lifetime("a"), lifetime("a")]);
}

/// Grammar violations surface as `Syntax` errors with the offending offset,
/// and register nothing.
#[test]
fn syntax_errors() {
    let mut reg = Registry::new();
    assert!(matches!(
        bounds(&mut reg, &b("Polygon <'a>")).unwrap_err(),
        Error::Syntax { .. }
    ));
    assert!(matches!(
        bounds(&mut reg, &b("Polygon => 'a, F")).unwrap_err(),
        Error::Syntax { .. }
    ));
    assert!(matches!(
        bounds(&mut reg, &b("Polygon => <'a, F:>")).unwrap_err(),
        Error::Syntax { .. }
    ));
    assert!(!reg.registered_flag());

    bounds(&mut reg, &b("Ok => <T>")).unwrap();
    let mut target = empty_target();
    assert!(matches!(
        bound_alias(&reg, &b("Ok,, Bad"), &mut target).unwrap_err(),
        Error::Syntax { .. }
    ));
}

/// Splicing before any registration fails with `NotYetRegistered`, which is
/// distinguishable from an unknown name.
#[test]
fn not_yet_registered() {
    let reg = Registry::new();
    let mut target = empty_target();
    let err = bound_alias(&reg, &b("Anything"), &mut target).unwrap_err();
    assert_eq!(err, Error::NotYetRegistered);
    assert_eq!(target, empty_target());
}

/// The declaration parser covers all three parameter kinds, nested angle
/// brackets, arrows inside bound text, and multiple entries per batch.
#[test]
fn parser_coverage() {
    let decls = bounds_store::parse::parse_decls(&b(
        "First => <'a, const N: usize = 4, T: Fn(A, B) -> C + Clone>;\n         Second => <U: Map<K, V>> where K: Ord, V: Default;",
    ))
    .unwrap();
    assert_eq!(decls.len(), 2);
    assert_eq!(
        decls[0],
        BoundDecl {
            name: b("First"),
            params: vec![
                lifetime("a"),
                GenericParam::Const { name: b("N"), ty: b("usize"), default: Some(b("4")) },
                type_param("T", &["Fn(A, B) -> C", "Clone"]),
            ],
            preds: Vec::new(),
        }
    );
    assert_eq!(
        decls[1],
        BoundDecl {
            name: b("Second"),
            params: vec![type_param("U", &["Map<K, V>"])],
            preds: vec![b("K: Ord"), b("V: Default")],
        }
    );
}

/// Identifier well-formedness as the grammar defines it.
#[test]
fn name_check() {
    assert!(check_name(&b("Polygon")));
    assert!(check_name(&b("_x9")));
    assert!(!check_name(&b("")));
    assert!(!check_name(&b("9x")));
    assert!(!check_name(&b("a-b")));
}
