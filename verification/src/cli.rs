//! Command-line helpers.
use crate::text::{push_char, push_chars, chars_of};
use vstd::prelude::*;

verus! {

/// The parts joined with single spaces between them.
pub open spec fn join_with_space(parts: Seq<Seq<char>>) -> Seq<char>
    decreases parts.len(),
{
    if parts.len() == 0 {
        seq![]
    } else if parts.len() == 1 {
        parts[0]
    } else {
        join_with_space(parts.drop_last()) + seq![' '] + parts.last()
    }
}

/// The query as the user typed it: its parts joined with spaces.
pub fn join_query(query: &[String]) -> (r: String)
    ensures
        r@ == join_with_space(crate::text::views(query@)),
{
    let ghost v = crate::text::views(query@);
    let mut r = String::new();
    let mut i: usize = 0;
    while i < query.len()
        invariant
            i <= query@.len(),
            v == crate::text::views(query@),
            r@ == join_with_space(v.take(i as int)),
        decreases query.len() - i,
    {
        let ghost before = r@;
        assert(v.take(i + 1).drop_last() =~= v.take(i as int));
        assert(v.take(i + 1).last() == query@[i as int]@);
        if i > 0 {
            push_char(&mut r, ' ');
        }
        let cs = chars_of(query[i].as_str());
        push_chars(&mut r, &cs, 0, cs.len());
        assert(cs@.subrange(0, cs@.len() as int) =~= cs@);
        if i == 0 {
            assert(v.take(1) =~= seq![query@[0]@]);
            assert(r@ =~= query@[0]@);
        } else {
            assert(r@ =~= before + seq![' '] + query@[i as int]@);
        }
        i += 1;
    }
    assert(v.take(i as int) =~= v);
    r
}

} // verus!
