use vstd::prelude::*;

verus! {

/// `num::Complex` is a plain pair of public fields `re` and `im`.
#[verifier::external_type_specification]
#[verifier::reject_recursive_types(T)]
pub struct ExComplex<T>(num::Complex<T>);

/// Relies on `num::Complex::new`: it stores `re` and `im` as given.
pub assume_specification<T>[ num::Complex::<T>::new ](re: T, im: T) -> (r: num::Complex<T>)
    ensures
        r.re == re,
        r.im == im,
;

} // verus!
