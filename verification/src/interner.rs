use vstd::prelude::*;
use lasso::Key;

verus! {

/// The key type of the string interner.
#[verifier::external_type_specification]
#[verifier::external_body]
pub struct ExSpur(lasso::Spur);

/// The string interner that maps identifiers to small integer keys.
#[verifier::external_type_specification]
#[verifier::external_body]
#[verifier::reject_recursive_types(K)]
#[verifier::reject_recursive_types(S)]
pub struct ExRodeo<K, S>(lasso::Rodeo<K, S>);

/// The strings held by an interner, in the order of their keys: the string
/// with key `k` is `interned(r)[k]`.
pub uninterp spec fn interned(r: lasso::Rodeo) -> Seq<Seq<char>>;

/// Result of interning `s` into an interner holding `names`: the key, and
/// the strings held afterwards.
pub open spec fn intern_result(names: Seq<Seq<char>>, s: Seq<char>) -> (usize, Seq<Seq<char>>) {
    if names.contains(s) {
        (names.index_of(s) as usize, names)
    } else {
        (names.len() as usize, names.push(s))
    }
}

/// `lasso::Rodeo::try_get_or_intern`, with the key taken as its index
/// (`lasso::Key::into_usize`).
///
/// Claimed of the outside code: a string already held is found, keeps its
/// key and leaves the interner unchanged. A new string is either taken,
/// under the next index as key and appended, or refused (`None`), leaving
/// the strings held unchanged. It is always refused once no key is left
/// (`u32::MAX` strings held); otherwise whether it is taken depends on the
/// interner's memory limit and on the allocator, which is left unsaid. No
/// string is held twice, and every key is below `u32::MAX`.
#[verifier::external_body]
pub(crate) fn intern(rodeo: &mut lasso::Rodeo, s: &str) -> (key: Option<usize>)
    ensures
        interned(*final(rodeo)).no_duplicates(),
        interned(*old(rodeo)).contains(s@) ==> {
            &&& key matches Some(k)
            &&& k < interned(*old(rodeo)).len()
            &&& k < u32::MAX
            &&& interned(*old(rodeo))[k as int] == s@
            &&& interned(*final(rodeo)) == interned(*old(rodeo))
        },
        !interned(*old(rodeo)).contains(s@) ==> match key {
            Some(k) => {
                &&& k == interned(*old(rodeo)).len()
                &&& k < u32::MAX
                &&& interned(*final(rodeo)) == interned(*old(rodeo)).push(s@)
            },
            None => interned(*final(rodeo)) == interned(*old(rodeo)),
        },
{
    match rodeo.try_get_or_intern(s) {
        Ok(k) => Some(k.into_usize()),
        Err(_) => None,
    }
}

/// `lasso::Rodeo::len`.
///
/// Claimed of the outside code: the number of strings held.
#[verifier::external_body]
pub(crate) fn interned_len(rodeo: &lasso::Rodeo) -> (n: usize)
    ensures
        n == interned(*rodeo).len(),
{
    rodeo.len()
}

/// `lasso::Rodeo::resolve`, with the key given as its index
/// (`lasso::Key::try_from_usize`).
///
/// Claimed of the outside code: it gives back the string held under the
/// key, for every index below the number of strings held. Such an index
/// converts to a key: an interner with `Spur` keys never holds more than
/// `u32::MAX` strings, as a new string is refused once no key is left.
#[verifier::external_body]
pub(crate) fn resolve(rodeo: &lasso::Rodeo, key: usize) -> (s: &str)
    requires
        key < interned(*rodeo).len(),
    ensures
        s@ == interned(*rodeo)[key as int],
{
    rodeo.resolve(&lasso::Spur::try_from_usize(key).unwrap())
}

} // verus!
