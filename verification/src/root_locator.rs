//! Finding the workspace root: the nearest directory, from the working
//! directory upward, holding a root manifest. The caller probes the file
//! system and hands the candidates in, nearest first, each with whether
//! `jm.json` lies in it.

use vstd::prelude::*;

use crate::strutil::copy_str;

verus! {

/// The message given when no candidate directory holds the manifest.
pub open spec fn no_root_msg() -> Seq<char> {
    "Couldn't find root directory. Make sure jm.json exists"@
}

/// The first candidate that holds the manifest, if any.
pub open spec fn first_root(candidates: Seq<(Seq<char>, bool)>) -> Option<Seq<char>>
    decreases candidates.len(),
{
    if candidates.len() == 0 {
        None
    } else if candidates[0].1 {
        Some(candidates[0].0)
    } else {
        first_root(candidates.skip(1))
    }
}

proof fn lemma_first_root_at(candidates: Seq<(Seq<char>, bool)>, i: int)
    requires
        0 <= i < candidates.len(),
        candidates[i].1,
        forall|j: int| 0 <= j < i ==> !(#[trigger] candidates[j]).1,
    ensures
        first_root(candidates) == Some(candidates[i].0),
    decreases i,
{
    if i > 0 {
        lemma_first_root_at(candidates.skip(1), i - 1);
    }
}

proof fn lemma_first_root_none(candidates: Seq<(Seq<char>, bool)>)
    requires
        forall|j: int| 0 <= j < candidates.len() ==> !(#[trigger] candidates[j]).1,
    ensures
        first_root(candidates) is None,
    decreases candidates.len(),
{
    if candidates.len() > 0 {
        assert(forall|j: int|
            0 <= j < candidates.skip(1).len() ==> candidates.skip(1)[j] == candidates[j + 1]);
        lemma_first_root_none(candidates.skip(1));
    }
}

/// Picks the nearest directory that holds the root manifest; each
/// candidate pairs a directory with whether the manifest lies in it.
pub fn find_root_dir(candidates: &Vec<(String, bool)>) -> (r: Result<String, String>)
    ensures
        match r {
            Ok(p) => first_root(candidates.deep_view()) == Some(p@),
            Err(e) => first_root(candidates.deep_view()) is None && e@ == no_root_msg(),
        },
{
    let mut i: usize = 0;
    while i < candidates.len()
        invariant
            i <= candidates.len(),
            candidates.deep_view().len() == candidates@.len(),
            forall|j: int| 0 <= j < i ==> !(#[trigger] candidates.deep_view()[j]).1,
        decreases candidates.len() - i,
    {
        proof {
            assert(candidates.deep_view()[i as int] == (
                candidates@[i as int].0@,
                candidates@[i as int].1,
            ));
        }
        if candidates[i].1 {
            proof {
                lemma_first_root_at(candidates.deep_view(), i as int);
            }
            return Ok(candidates[i].0.clone());
        }
        i = i + 1;
    }
    proof {
        lemma_first_root_none(candidates.deep_view());
    }
    Err(copy_str("Couldn't find root directory. Make sure jm.json exists"))
}

} // verus!
