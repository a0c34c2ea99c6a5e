//! Choosing a destination path that nothing occupies yet.
use vstd::prelude::*;
use crate::error::OrganizeError;
use crate::paths::{dir_prefix, extension_of, file_name_of, split_path, stem_of, with_chars};
use crate::text::{chars_of, contains_string, decimal, decimal_of, push_char};

verus! {

/// How many numbered variants of a name are tried, plus one.
pub const PROBE_LIMIT: u64 = 1000;

/// The paths held in `v`.
pub open spec fn views(v: Seq<String>) -> Set<Seq<char>> {
    Set::new(|p: Seq<char>| exists|i: int| 0 <= i < v.len() && (#[trigger] v[i])@ == p)
}

/// The `i`-th numbered variant of `p`: `dir/stem (i).ext`.
pub open spec fn numbered(p: Seq<char>, i: nat) -> Seq<char> {
    dir_prefix(p) + stem_of(file_name_of(p)) + seq![' ', '('] + decimal_of(i) + seq![')']
        + extension_of(file_name_of(p))
}

/// The first numbered variant of `p`, from the `i`-th on, that `taken` lacks.
pub open spec fn first_free(taken: Set<Seq<char>>, p: Seq<char>, i: nat) -> Option<Seq<char>>
    decreases PROBE_LIMIT - i,
{
    if i >= PROBE_LIMIT {
        None
    } else if !taken.contains(numbered(p, i)) {
        Some(numbered(p, i))
    } else {
        first_free(taken, p, i + 1)
    }
}

/// `p` itself where it is free, else its first free numbered variant, else
/// nothing.
pub open spec fn resolve_spec(taken: Set<Seq<char>>, p: Seq<char>) -> Option<Seq<char>> {
    if !taken.contains(p) {
        Some(p)
    } else {
        first_free(taken, p, 1)
    }
}

proof fn lemma_first_free_skips(taken: Set<Seq<char>>, p: Seq<char>, j: nat, k: nat)
    requires
        1 <= j <= k + 1,
        k + 1 < PROBE_LIMIT,
        forall|i: nat| 1 <= i <= k ==> taken.contains(#[trigger] numbered(p, i)),
        !taken.contains(numbered(p, k + 1)),
    ensures
        first_free(taken, p, j) == Some(numbered(p, k + 1)),
    decreases k + 1 - j,
{
    if j <= k {
        assert(taken.contains(numbered(p, j)));
        lemma_first_free_skips(taken, p, j + 1, k);
    }
}

proof fn lemma_first_free_is_free(taken: Set<Seq<char>>, p: Seq<char>, i: nat)
    ensures
        first_free(taken, p, i) matches Some(q) ==> !taken.contains(q),
    decreases PROBE_LIMIT - i,
{
    if i < PROBE_LIMIT && taken.contains(numbered(p, i)) {
        lemma_first_free_is_free(taken, p, i + 1);
    }
}

/// What the resolution of a path gives is not taken.
pub proof fn lemma_resolved_is_free(taken: Set<Seq<char>>, p: Seq<char>)
    ensures
        resolve_spec(taken, p) matches Some(q) ==> !taken.contains(q),
{
    lemma_first_free_is_free(taken, p, 1);
}

/// A path that is taken together with its first `k` numbered variants
/// resolves to variant `k + 1` when that one is free.
pub proof fn law_numbered_siblings(taken: Set<Seq<char>>, p: Seq<char>, k: nat)
    requires
        taken.contains(p),
        forall|i: nat| 1 <= i <= k ==> taken.contains(#[trigger] numbered(p, i)),
        !taken.contains(numbered(p, k + 1)),
        k + 1 < PROBE_LIMIT,
    ensures
        resolve_spec(taken, p) == Some(numbered(p, k + 1)),
{
    lemma_first_free_skips(taken, p, 1, k);
}

/// A destination for `path` that no entry of `taken` occupies: the path
/// itself, or `stem (i).ext` beside it for the least `i` below 1000 that is
/// free.
pub fn handle_name_conflict(path: &String, taken: &Vec<String>) -> (r: Result<String, OrganizeError>)
    ensures
        match resolve_spec(views(taken@), path@) {
            Some(q) => r matches Ok(s) && s@ == q,
            None => r == Err::<String, OrganizeError>(OrganizeError::ConflictResolutionExhausted),
        },
{
    if !contains_string(taken, path) {
        proof {
            assert(!views(taken@).contains(path@));
        }
        return Ok(path.clone());
    }
    assert(views(taken@).contains(path@));
    let (dir, stem, ext) = split_path(path);
    let ext_cs = chars_of(ext.as_str());
    let mut i: u64 = 1;
    while i < PROBE_LIMIT
        invariant
            1 <= i <= PROBE_LIMIT,
            dir@ == dir_prefix(path@),
            stem@ == stem_of(file_name_of(path@)),
            ext_cs@ == extension_of(file_name_of(path@)),
            resolve_spec(views(taken@), path@) == first_free(views(taken@), path@, i as nat),
        decreases PROBE_LIMIT - i,
    {
        let mut cand = dir.clone();
        cand.append(stem.as_str());
        push_char(&mut cand, ' ');
        push_char(&mut cand, '(');
        let num = decimal(i);
        cand.append(num.as_str());
        push_char(&mut cand, ')');
        let cand = with_chars(cand, &ext_cs);
        assert(cand@ =~= numbered(path@, i as nat));
        if !contains_string(taken, &cand) {
            assert(!views(taken@).contains(cand@));
            return Ok(cand);
        }
        assert(views(taken@).contains(cand@));
        i += 1;
    }
    Err(OrganizeError::ConflictResolutionExhausted)
}

} // verus!
