//! Shared helpers on character sequences and strings.

use vstd::prelude::*;

verus! {

/// The concatenation of a sequence of character sequences, in order.
pub open spec fn concat_all(parts: Seq<Seq<char>>) -> Seq<char>
    decreases parts.len(),
{
    if parts.len() == 0 {
        Seq::empty()
    } else {
        parts[0] + concat_all(parts.drop_first())
    }
}

/// The views of a sequence of strings.
pub open spec fn views_of(v: Seq<String>) -> Seq<Seq<char>> {
    v.map_values(|s: String| s@)
}

/// Appending one part on the right extends the concatenation on the right.
pub proof fn lemma_concat_all_push(parts: Seq<Seq<char>>, part: Seq<char>)
    ensures
        concat_all(parts.push(part)) == concat_all(parts) + part,
    decreases parts.len(),
{
    if parts.len() == 0 {
        assert(parts.push(part).drop_first() =~= Seq::<Seq<char>>::empty());
        assert(parts.push(part)[0] == part);
        assert(concat_all(parts.push(part)) == part + concat_all(Seq::<Seq<char>>::empty()));
        assert(part + Seq::<char>::empty() =~= part);
        assert(concat_all(parts) + part =~= part);
    } else {
        assert(parts.push(part).drop_first() =~= parts.drop_first().push(part));
        lemma_concat_all_push(parts.drop_first(), part);
        assert(concat_all(parts.push(part)) =~= concat_all(parts) + part);
    }
}

/// Pushing a string on the right pushes its view on the views.
pub proof fn lemma_views_push(v: Seq<String>, x: String)
    ensures
        views_of(v.push(x)) == views_of(v).push(x@),
{
    assert(views_of(v.push(x)) =~= views_of(v).push(x@));
}

/// Relies on `String::push`: appends one character at the end of the string.
#[verifier::external_body]
pub(crate) fn push_char(s: &mut String, c: char)
    ensures
        final(s)@ == old(s)@.push(c),
{
    s.push(c);
}

} // verus!
