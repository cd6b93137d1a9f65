//! Fully-qualified names.

use vstd::prelude::*;
use vstd::string::*;

verus! {

/// The dotted name of `name` declared inside `prefix`: `name` alone when the
/// prefix is empty, otherwise the prefix, a dot and the name.
pub open spec fn fqn_spec(prefix: Seq<char>, name: Seq<char>) -> Seq<char> {
    if prefix.len() == 0 {
        name
    } else {
        prefix + seq!['.'] + name
    }
}

/// Builds the fully-qualified name of `name` under `prefix`.
pub fn fqn(prefix: &str, name: &str) -> (full: String)
    ensures
        full@ == fqn_spec(prefix@, name@),
{
    if prefix.is_empty() {
        String::from_str(name)
    } else {
        let mut full = String::from_str(prefix);
        proof {
            reveal_strlit(".");
        }
        full.append(".");
        full.append(name);
        assert(full@ =~= prefix@ + seq!['.'] + name@);
        full
    }
}

} // verus!

verus! {

/// The same name under two different prefixes gives two different
/// fully-qualified names: files of different packages that declare a message
/// of one name do not meet in the index.
pub proof fn law_prefixes_keep_names_apart(first: Seq<char>, second: Seq<char>, name: Seq<char>)
    requires
        first != second,
    ensures
        fqn_spec(first, name) != fqn_spec(second, name),
{
    let a = fqn_spec(first, name);
    let b = fqn_spec(second, name);
    if a == b {
        if first.len() == 0 {
            assert(second.len() > 0) by {
                if second.len() == 0 {
                    assert(first =~= second);
                }
            }
            assert(b.len() == second.len() + 1 + name.len());
        } else if second.len() == 0 {
            assert(a.len() == first.len() + 1 + name.len());
        } else {
            assert(a.len() == first.len() + 1 + name.len());
            assert(b.len() == second.len() + 1 + name.len());
            assert forall|i: int| 0 <= i < first.len() implies first[i] == second[i] by {
                assert(a[i] == first[i]);
                assert(b[i] == second[i]);
            }
            assert(first =~= second);
        }
    }
}

} // verus!
