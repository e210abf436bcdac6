use vstd::prelude::*;

verus! {

/// `String::push`.
///
/// Claimed of the outside code: the character is appended to the string.
#[verifier::external_body]
pub(crate) fn push_char(s: &mut String, c: char)
    ensures
        final(s)@ == old(s)@.push(c),
{
    s.push(c)
}

/// The characters of a string slice, in order.
pub fn chars_of(source: &str) -> (v: Vec<char>)
    ensures
        v@ == source@,
{
    broadcast use vstd::string::group_string_axioms;

    let mut v: Vec<char> = Vec::new();
    let mut it = source.chars();
    loop
        invariant
            v@ + vstd::std_specs::iter::IteratorSpec::remaining(&it) == source@,
            vstd::std_specs::iter::IteratorSpec::decrease(&it) is Some,
        decreases vstd::std_specs::iter::IteratorSpec::decrease(&it)->0,
    {
        match it.next() {
            Some(c) => {
                v.push(c);
                assert(v@ + vstd::std_specs::iter::IteratorSpec::remaining(&it) =~= source@);
            },
            None => {
                assert(v@ =~= source@);
                return v;
            },
        }
    }
}

} // verus!
