//! Properties of the divisions that hold across calls and inputs.
use vstd::prelude::*;
use vstd::arithmetic::div_mod::*;
use crate::limbs::{limbs_value, lemma_limbs_value_injective, lemma_limbs_value_zero_extend};

verus! {

/// Dividing `q * d + r` with `r < d` gives back the quotient `q` and the
/// remainder `r`.
pub proof fn law_quotient_of_product(q: int, r: int, d: int)
    requires
        d > 0,
        0 <= r < d,
    ensures
        (q * d + r) / d == q,
        (q * d + r) % d == r,
{
    lemma_fundamental_div_mod_converse(q * d + r, d, q, r);
}

/// A multi-limb division of `quotient * d + r` (with `r < d`) leaves exactly
/// the limbs of `quotient` in the numerator, followed by zero limbs, and
/// returns `r`: whatever limbs of the numerator's length have the value
/// `limbs_value(numerator) / d` are those limbs.
pub proof fn law_limbs_quotient_of_product(
    numerator: Seq<u64>,
    quotient: Seq<u64>,
    d: int,
    r: int,
    result: Seq<u64>,
)
    requires
        d > 0,
        0 <= r < d,
        quotient.len() <= numerator.len(),
        limbs_value(numerator) == limbs_value(quotient) * d + r,
        result.len() == numerator.len(),
        limbs_value(result) == limbs_value(numerator) / d,
    ensures
        result == quotient + Seq::new((numerator.len() - quotient.len()) as nat, |j: int| 0u64),
        limbs_value(numerator) % d == r,
{
    let k = (numerator.len() - quotient.len()) as nat;
    let padded = quotient + Seq::new(k, |j: int| 0u64);
    lemma_fundamental_div_mod_converse(limbs_value(numerator), d, limbs_value(quotient), r);
    lemma_limbs_value_zero_extend(quotient, k);
    lemma_limbs_value_injective(result, padded);
}

} // verus!
