//! The decisions of the command-line tools: output names, argument lists
//! and per-file processing, apart from the file and process work.
pub mod clean;
pub mod extract;
pub mod fetch;
pub mod mux;
pub mod shift;
use vstd::prelude::*;
use crate::text::{chars_eq, chars_of, push_all, push_str, string_of};

verus! {

/// `std::path::PathBuf`, carried through the argument structs unopened.
#[verifier::external_type_specification]
#[verifier::external_body]
pub struct ExPathBuf(std::path::PathBuf);

pub open spec fn names_view(names: Seq<&str>) -> Seq<Seq<char>> {
    names.map_values(|s: &str| s@)
}

/// Whether `l` is one of `names`.
pub fn is_one_of(l: &[char], names: &[&str]) -> (b: bool)
    ensures
        b == names_view(names@).contains(l@),
{
    let mut k: usize = 0;
    while k < names.len()
        invariant
            k <= names@.len(),
            forall|j: int| 0 <= j < k ==> l@ != names@[j]@,
        decreases names@.len() - k,
    {
        let n = chars_of(names[k]);
        if chars_eq(l, &n) {
            assert(names_view(names@)[k as int] == l@);
            return true;
        }
        k = k + 1;
    }
    assert forall|j: int| 0 <= j < names_view(names@).len() implies names_view(names@)[j] != l@ by {
        assert(names_view(names@)[j] == names@[j]@);
    }
    false
}

/// Strings joined with a separator.
pub open spec fn join_strs(v: Seq<Seq<char>>, sep: Seq<char>) -> Seq<char>
    decreases v.len(),
{
    if v.len() == 0 {
        seq![]
    } else if v.len() == 1 {
        v[0]
    } else {
        join_strs(v.drop_last(), sep) + sep + v.last()
    }
}

/// Appends `v` joined with `sep`.
pub fn push_joined(out: &mut Vec<char>, v: &[String], sep: &str)
    ensures
        final(out)@ == old(out)@ + join_strs(v@.map_values(|s: String| s@), sep@),
{
    let ghost sv = v@.map_values(|s: String| s@);
    let mut k: usize = 0;
    while k < v.len()
        invariant
            k <= v@.len(),
            sv == v@.map_values(|s: String| s@),
            out@ == old(out)@ + join_strs(sv.take(k as int), sep@),
        decreases v@.len() - k,
    {
        assert(sv.take(k + 1).drop_last() =~= sv.take(k as int));
        if k > 0 {
            push_str(out, sep);
        } else {
            assert(sv.take(1) =~= seq![sv[0]]);
        }
        push_str(out, v[k].as_str());
        k = k + 1;
    }
    assert(sv.take(v@.len() as int) =~= sv);
}

} // verus!
