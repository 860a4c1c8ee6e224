use vstd::prelude::*;

use crate::error::ContractError;

verus! {

/// The Unicode-lowercased form of a character sequence, as
/// `str::to_lowercase` computes it.
pub uninterp spec fn lower_of(s: Seq<char>) -> Seq<char>;

/// Relies on `str::to_lowercase`: the result is a pure function of the
/// characters of the input.
#[verifier::external_body]
fn to_lowercase(s: &String) -> (r: String)
    ensures
        r@ == lower_of(s@),
{
    s.as_str().to_lowercase()
}

/// An identity string is canonical when lowercasing leaves it unchanged.
pub open spec fn is_canonical(s: Seq<char>) -> bool {
    lower_of(s) == s
}

/// Accepts an identity string only in canonical (lowercase) form, as a
/// defense against case-based duplicate-account bugs. Any further
/// format validation is the address validator's task, outside the core.
pub fn addr_validate_to_lower(addr: &String) -> (r: Result<String, ContractError>)
    ensures
        match r {
            Ok(v) => is_canonical(addr@) && v@ == addr@,
            Err(e) => !is_canonical(addr@) && e == ContractError::InvalidInput,
        },
{
    let lowered = to_lowercase(addr);
    if !lowered.eq(addr) {
        Err(ContractError::InvalidInput)
    } else {
        Ok(addr.clone())
    }
}

/// The optional form of [`addr_validate_to_lower`]: `None` passes through.
pub fn addr_opt_validate(addr: &Option<String>) -> (r: Result<Option<String>, ContractError>)
    ensures
        match r {
            Ok(v) => match addr {
                Some(a) => is_canonical(a@) && (v matches Some(x) && x@ == a@),
                None => v is None,
            },
            Err(e) => addr matches Some(a) && !is_canonical(a@) && e
                == ContractError::InvalidInput,
        },
{
    match addr {
        Some(a) => match addr_validate_to_lower(a) {
            Ok(v) => Ok(Some(v)),
            Err(e) => Err(e),
        },
        None => Ok(None),
    }
}

} // verus!
