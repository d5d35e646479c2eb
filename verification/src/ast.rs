use vstd::prelude::*;

verus! {

/// Mathematical model of one generic parameter.
///
/// A type parameter carries an ordered list of trait-bound expressions;
/// bound expressions and const types/defaults are uninterpreted byte strings,
/// never decomposed, only carried and concatenated.
pub enum ParamModel {
    Lifetime { name: Seq<u8> },
    Type { name: Seq<u8>, bounds: Seq<Seq<u8>> },
    Const { name: Seq<u8>, ty: Seq<u8>, default: Option<Seq<u8>> },
}

/// One generic parameter of a declaration: a lifetime, a type parameter with
/// its trait bounds, or a const parameter with its type and optional default.
#[derive(Debug, Clone, PartialEq, Eq)]
pub enum GenericParam {
    Lifetime { name: Vec<u8> },
    Type { name: Vec<u8>, bounds: Vec<Vec<u8>> },
    Const { name: Vec<u8>, ty: Vec<u8>, default: Option<Vec<u8>> },
}

impl View for GenericParam {
    type V = ParamModel;

    open spec fn view(&self) -> ParamModel {
        match self {
            GenericParam::Lifetime { name } => ParamModel::Lifetime { name: name@ },
            GenericParam::Type { name, bounds } => ParamModel::Type {
                name: name@,
                bounds: bounds.deep_view(),
            },
            GenericParam::Const { name, ty, default } => ParamModel::Const {
                name: name@,
                ty: ty@,
                default: match default {
                    Some(d) => Some(d@),
                    None => None,
                },
            },
        }
    }
}

impl DeepView for GenericParam {
    type V = ParamModel;

    open spec fn deep_view(&self) -> ParamModel {
        self.view()
    }
}

/// Mathematical model of one stored bound set: its generic parameters and
/// its where-clause predicates (uninterpreted byte strings).
pub struct BoundSetModel {
    pub params: Seq<ParamModel>,
    pub preds: Seq<Seq<u8>>,
}

/// One parsed registration entry: `name => <params> [where preds]`.
/// An absent where-clause is an empty predicate list.
#[derive(Debug, Clone, PartialEq, Eq)]
pub struct BoundDecl {
    pub name: Vec<u8>,
    pub params: Vec<GenericParam>,
    pub preds: Vec<Vec<u8>>,
}

/// Mathematical model of one parsed registration entry.
pub struct DeclModel {
    pub name: Seq<u8>,
    pub set: BoundSetModel,
}

impl View for BoundDecl {
    type V = DeclModel;

    open spec fn view(&self) -> DeclModel {
        DeclModel {
            name: self.name@,
            set: BoundSetModel {
                params: self.params.deep_view(),
                preds: self.preds.deep_view(),
            },
        }
    }
}

impl DeepView for BoundDecl {
    type V = DeclModel;

    open spec fn deep_view(&self) -> DeclModel {
        self.view()
    }
}

/// The generics of a target declaration, mutated in place by splicing.
/// `where_preds` is `None` when the declaration has no where-clause at all,
/// which splicing distinguishes from an empty one.
#[derive(Debug, Clone, PartialEq, Eq)]
pub struct TargetGenerics {
    pub params: Vec<GenericParam>,
    pub where_preds: Option<Vec<Vec<u8>>>,
}

/// Mathematical model of a target declaration's generics.
pub struct TargetModel {
    pub params: Seq<ParamModel>,
    pub where_preds: Option<Seq<Seq<u8>>>,
}

impl View for TargetGenerics {
    type V = TargetModel;

    open spec fn view(&self) -> TargetModel {
        TargetModel {
            params: self.params.deep_view(),
            where_preds: match &self.where_preds {
                Some(ps) => Some(ps.deep_view()),
                None => None,
            },
        }
    }
}

/// Everything that can go wrong in registration or splicing.
/// Variants carry the data a diagnostic needs; rendering a human-readable
/// message is left to the caller.
#[derive(Debug, Clone, PartialEq, Eq)]
pub enum Error {
    /// The registration text violates the declaration grammar;
    /// `pos` is the byte offset of the offending input.
    Syntax { pos: usize },
    /// `register` was called a second time in the same context.
    AlreadyRegistered,
    /// Two entries of one registration batch share this name.
    DuplicateName { name: Vec<u8> },
    /// A splice referenced this name, which was never registered.
    UnknownBound { name: Vec<u8> },
    /// A splice ran before any registration.
    NotYetRegistered,
    /// A stored serialized bound set failed to re-parse.
    CorruptBoundSet { name: Vec<u8> },
}

} // verus!

verus! {

/// Pushing onto a vector pushes the element's model onto the vector's model.
pub proof fn lemma_deep_view_push<T: DeepView>(v: Vec<T>, w: Vec<T>, x: T)
    requires
        w@ == v@.push(x),
    ensures
        w.deep_view() == v.deep_view().push(x.deep_view()),
{
    assert forall|i: int| 0 <= i < w@.len() implies w.deep_view()[i] == v.deep_view().push(
        x.deep_view(),
    )[i] by {
        if i < v@.len() {
            assert(w@[i] == v@[i]);
            assert(v.deep_view()[i] == v@[i].deep_view());
        } else {
            assert(w@[i] == x);
        }
    }
    assert(w.deep_view() =~= v.deep_view().push(x.deep_view()));
}

} // verus!
