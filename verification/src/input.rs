//! Reading the front of a string slice: the recognisers that `nom` provides
//! for one character, a line ending and the end of the input, and the slice
//! of what was consumed.

use crate::grammar::{consumed, is_suffix, line_ending_len};
use vstd::prelude::*;
use vstd::string::StringSliceAdditionalSpecFns;
use vstd::utf8::{
    decode_utf8, encode_utf8, encode_utf8_decode_utf8, encode_utf8_first_scalar,
    encode_utf8_valid_utf8, is_char_boundary, pop_first_scalar,
};

verus! {

#[verifier::external_type_specification]
#[verifier::external_body]
#[verifier::reject_recursive_types(E)]
pub struct ExNomErr<E>(nom::Err<E>);

#[verifier::external_type_specification]
#[verifier::external_body]
#[verifier::reject_recursive_types(I)]
pub struct ExNomError<I>(nom::error::Error<I>);

/// `nom::character::complete::char`: succeeds exactly where the input
/// starts with `c`, and then gives `c` and the input behind it.
#[verifier::external_body]
pub(crate) fn take_char<'a>(c: char, s: &'a str) -> (r: Result<(&'a str, char), nom::Err<nom::error::Error<&'a str>>>)
    ensures
        r is Ok <==> (s@.len() > 0 && s@[0] == c),
        r matches Ok((rest, found)) ==> found == c && rest@ == s@.skip(1),
{
    nom::character::complete::char(c)(s)
}

/// `nom::character::complete::anychar`: succeeds exactly where the input is
/// not empty, and then gives its first character and the input behind it.
#[verifier::external_body]
pub(crate) fn take_any<'a>(s: &'a str) -> (r: Result<(&'a str, char), nom::Err<nom::error::Error<&'a str>>>)
    ensures
        r is Ok <==> s@.len() > 0,
        r matches Ok((rest, found)) ==> found == s@[0] && rest@ == s@.skip(1),
{
    nom::character::complete::anychar(s)
}

/// `nom::character::complete::line_ending`: succeeds exactly where the
/// input starts with a line feed, or with a carriage return and a line feed,
/// and then gives that line ending and the input behind it.
#[verifier::external_body]
pub(crate) fn take_line_ending<'a>(s: &'a str) -> (r: Result<(&'a str, &'a str), nom::Err<nom::error::Error<&'a str>>>)
    ensures
        r is Ok <==> line_ending_len(s@) > 0,
        r matches Ok((rest, ending)) ==> rest@ == s@.skip(line_ending_len(s@) as int) && ending@
            == s@.take(line_ending_len(s@) as int),
{
    nom::character::complete::line_ending(s)
}

/// `nom::combinator::eof`: succeeds exactly where the input is empty, and
/// then gives the input twice.
#[verifier::external_body]
pub(crate) fn take_end<'a>(s: &'a str) -> (r: Result<(&'a str, &'a str), nom::Err<nom::error::Error<&'a str>>>)
    ensures
        r is Ok <==> s@.len() == 0,
        r matches Ok((rest, end)) ==> rest@ == s@ && end@ == s@,
{
    nom::combinator::eof(s)
}

/// The encoding of a text is the encoding of its front and then that of the rest.
proof fn lemma_encode_concat(a: Seq<char>, b: Seq<char>)
    ensures
        encode_utf8(a + b) =~= encode_utf8(a) + encode_utf8(b),
    decreases a.len(),
{
    if a.len() == 0 {
        assert(a + b =~= b);
    } else {
        assert((a + b).drop_first() =~= a.drop_first() + b);
        lemma_encode_concat(a.drop_first(), b);
    }
}

/// Where the encoding of the front ends, a character of the whole begins.
proof fn lemma_boundary_behind_front(a: Seq<char>, b: Seq<char>)
    ensures
        is_char_boundary(encode_utf8(a + b), encode_utf8(a).len() as int),
    decreases a.len(),
{
    broadcast use encode_utf8_valid_utf8;

    let bytes = encode_utf8(a + b);
    if a.len() > 0 {
        encode_utf8_first_scalar(a + b);
        assert(pop_first_scalar(bytes) =~= encode_utf8((a + b).drop_first()));
        assert((a + b).drop_first() =~= a.drop_first() + b);
        lemma_boundary_behind_front(a.drop_first(), b);
        lemma_encode_concat(a, b);
    }
}

/// The front of `s` that was consumed to leave `rest`.
pub fn front<'a>(s: &'a str, rest: &str) -> (head: &'a str)
    requires
        is_suffix(rest@, s@),
    ensures
        head@ == consumed(s@, rest@),
{
    broadcast use vstd::slice::axiom_spec_len;
    broadcast use encode_utf8_decode_utf8;

    let ghost a = consumed(s@, rest@);
    proof {
        assert(s@ =~= a + rest@);
        lemma_encode_concat(a, rest@);
        lemma_boundary_behind_front(a, rest@);
    }
    let n = s.as_bytes().len() - rest.as_bytes().len();
    let (head, _) = s.split_at(n);
    proof {
        assert(head.spec_bytes() =~= encode_utf8(a));
        assert(decode_utf8(encode_utf8(head@)) == head@);
        assert(decode_utf8(encode_utf8(a)) == a);
    }
    head
}

} // verus!
