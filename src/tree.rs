//! Which folders of a tree are empty, for pruning after a flattening.
use vstd::prelude::*;
use crate::moves::strings_view;

verus! {

/// A folder and the paths of everything directly inside it, as read once
/// the files have been moved out.
#[derive(Debug, Clone)]
pub struct DirListing {
    pub path: String,
    pub children: Vec<String>,
}

/// The folders among `ls[i..]` that hold no entry at all, deepest first:
/// the listing names each folder before the folders inside it, so it is
/// read from the end. A folder that still holds anything, an empty folder
/// included, is kept.
pub open spec fn empty_dirs_from(ls: Seq<DirListing>, i: int) -> Seq<Seq<char>>
    decreases ls.len() - i,
{
    if i < 0 || i >= ls.len() {
        Seq::empty()
    } else {
        let later = empty_dirs_from(ls, i + 1);
        if ls[i].children@.len() == 0 {
            later.push(ls[i].path@)
        } else {
            later
        }
    }
}

/// The folders of `listings` (each listed before the folders inside it)
/// that hold no entry, deepest first.
pub fn empty_dirs(listings: &Vec<DirListing>) -> (r: Vec<String>)
    ensures
        strings_view(r@) == empty_dirs_from(listings@, 0),
{
    let mut found: Vec<String> = Vec::new();
    let mut i: usize = listings.len();
    assert(strings_view(found@) =~= Seq::<Seq<char>>::empty());
    while i > 0
        invariant
            i <= listings@.len(),
            strings_view(found@) == empty_dirs_from(listings@, i as int),
        decreases i,
    {
        i -= 1;
        let d = &listings[i];
        if d.children.len() == 0 {
            let ghost before = found@;
            found.push(d.path.clone());
            assert(strings_view(found@) =~= strings_view(before).push(d.path@));
        }
    }
    found
}

} // verus!
