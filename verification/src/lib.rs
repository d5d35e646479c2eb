use vstd::prelude::*;

pub mod ast;
pub mod codec;
pub mod example;
pub mod parse;
pub mod registry;
pub mod splice;

verus! {

// ASCII codes used by the declaration grammar.
pub const LOWER_A: u8 = 97;
pub const LOWER_Z: u8 = 122;
pub const UPPER_A: u8 = 65;
pub const UPPER_Z: u8 = 90;
pub const DIGIT_0: u8 = 48;
pub const DIGIT_9: u8 = 57;
pub const UNDERSCORE: u8 = 95;

pub open spec fn is_ident_byte_start(b: u8) -> bool {
    (LOWER_A <= b && b <= LOWER_Z) || (UPPER_A <= b && b <= UPPER_Z) || b == UNDERSCORE
}

pub open spec fn is_ident_byte(b: u8) -> bool {
    is_ident_byte_start(b) || (DIGIT_0 <= b && b <= DIGIT_9)
}

/// A byte string that can serve as a bound-set or parameter name:
/// a nonempty ASCII identifier.
pub open spec fn wf_name(s: Seq<u8>) -> bool {
    &&& s.len() >= 1
    &&& is_ident_byte_start(s[0])
    &&& forall|i: int| 0 <= i < s.len() ==> is_ident_byte(#[trigger] s[i])
}

/// Executable check that a byte string is a well-formed identifier.
pub fn check_name(s: &Vec<u8>) -> (r: bool)
    ensures
        r == wf_name(s@),
{
    if s.len() == 0 {
        return false;
    }
    let b0 = s[0];
    if !((LOWER_A <= b0 && b0 <= LOWER_Z) || (UPPER_A <= b0 && b0 <= UPPER_Z) || b0 == UNDERSCORE) {
        return false;
    }
    let mut i: usize = 1;
    while i < s.len()
        invariant
            1 <= i <= s@.len(),
            is_ident_byte_start(s@[0]),
            forall|j: int| 0 <= j < i ==> is_ident_byte(#[trigger] s@[j]),
        decreases s@.len() - i,
    {
        let b = s[i];
        if !((LOWER_A <= b && b <= LOWER_Z) || (UPPER_A <= b && b <= UPPER_Z) || b == UNDERSCORE
            || (DIGIT_0 <= b && b <= DIGIT_9)) {
            return false;
        }
        i += 1;
    }
    true
}

} // verus!

verus! {

use crate::ast::{Error, TargetGenerics};
use crate::parse::{decls_of, names_of};
use crate::registry::{decls_map, has_dup_name, is_dup_name, Registry};
use crate::splice::{names_known, sets_of, splice_all, splice_stopped};

/// Parses the body of one registration invocation — a batch of
/// `Name => <generics> [where predicates];` declarations — and registers
/// every entry. Fails with `AlreadyRegistered` whenever a registration
/// already happened, whatever the new input holds; then with `Syntax` when
/// the input violates the declaration grammar (registering nothing); then
/// with `DuplicateName` when two entries of the batch share a name. On
/// success the registry holds exactly the batch the grammar reads from the
/// input.
pub fn bounds(registry: &mut Registry, input: &Vec<u8>) -> (r: Result<(), Error>)
    requires
        old(registry).wf(),
    ensures
        final(registry).wf(),
        r matches Err(_) ==> *final(registry) == *old(registry),
        old(registry).is_registered() ==> (r matches Err(e) && e == Error::AlreadyRegistered),
        !old(registry).is_registered() && decls_of(input@) is None ==> (r matches Err(
            e,
        ) && e matches Error::Syntax { .. }),
        !old(registry).is_registered() && decls_of(input@) is Some && has_dup_name(
            decls_of(input@)->Some_0,
        ) ==> (r matches Err(e) && e matches Error::DuplicateName { name } && is_dup_name(
            decls_of(input@)->Some_0,
            name@,
        )),
        !old(registry).is_registered() && decls_of(input@) is Some && !has_dup_name(
            decls_of(input@)->Some_0,
        ) ==> (r matches Ok(_) && final(registry).is_registered() && final(registry)@ == decls_map(
            decls_of(input@)->Some_0,
        )),
{
    if registry.registered_flag() {
        return Err(Error::AlreadyRegistered);
    }
    let decls = match crate::parse::parse_decls(input) {
        Ok(d) => d,
        Err(e) => {
            return Err(e);
        },
    };
    registry.register(decls)
}

/// Parses the comma-separated bound names of a splice request and splices
/// each named bound set into the target's generics, left to right. Fails
/// with `Syntax` when the name list violates the grammar, with
/// `NotYetRegistered` when no registration has happened, and with
/// `UnknownBound` — naming the first missing name — when a name was never
/// registered, the names before it already applied. On success the target
/// carries every named set, in the order given.
pub fn bound_alias(registry: &Registry, attr: &Vec<u8>, target: &mut TargetGenerics) -> (r: Result<
    (),
    Error,
>)
    requires
        registry.wf(),
    ensures
        names_of(attr@) is None ==> (r matches Err(e) && e matches Error::Syntax { .. }
            && *final(target) == *old(target)),
        names_of(attr@) is Some && !registry.is_registered() ==> (r matches Err(e) && e
            == Error::NotYetRegistered && *final(target) == *old(target)),
        names_of(attr@) is Some && registry.is_registered() && names_known(
            registry@,
            names_of(attr@)->Some_0,
        ) ==> (r matches Ok(_) && final(target)@ == splice_all(
            old(target)@,
            sets_of(registry@, names_of(attr@)->Some_0),
        )),
        names_of(attr@) is Some && registry.is_registered() && !names_known(
            registry@,
            names_of(attr@)->Some_0,
        ) ==> (r matches Err(e) && splice_stopped(
            registry@,
            names_of(attr@)->Some_0,
            old(target)@,
            final(target)@,
            e,
        )),
{
    let names = match crate::parse::parse_names(attr) {
        Ok(n) => n,
        Err(e) => {
            return Err(e);
        },
    };
    crate::splice::splice(registry, &names, target)
}

} // verus!
