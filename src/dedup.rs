//! Finding files whose contents are the same, by their digests.
use vstd::prelude::*;
use sha2::Digest;
use crate::actions::{ActionKind, OrganizeAction};
use crate::dates::Timestamp;
use crate::moves::{moves_view, FileMove};
use crate::text::push_char;

verus! {

/// The SHA-256 digest of some bytes.
pub uninterp spec fn sha256_of(data: Seq<u8>) -> Seq<u8>;

/// Relies on sha2's `Sha256::digest`: the 32-byte SHA-256 digest of the
/// bytes, which depends on them alone.
#[verifier::external_body]
fn sha256(data: &[u8]) -> (r: Vec<u8>)
    ensures
        r@ == sha256_of(data@),
        r@.len() == 32,
{
    sha2::Sha256::digest(data).to_vec()
}

/// The lower-case hexadecimal digit for `d` below 16.
pub open spec fn hex_digit(d: int) -> char {
    if d < 10 {
        ((d + 48) as u32) as char
    } else {
        ((d + 87) as u32) as char
    }
}

/// Bytes in lower-case hexadecimal, two digits each.
pub open spec fn hex_of(b: Seq<u8>) -> Seq<char>
    decreases b.len(),
{
    if b.len() == 0 {
        Seq::empty()
    } else {
        hex_of(b.drop_last()) + seq![hex_digit(b.last() as int / 16), hex_digit(b.last() as int % 16)]
    }
}

fn hex_char(d: u8) -> (r: char)
    requires
        d < 16,
    ensures
        r == hex_digit(d as int),
{
    if d < 10 {
        (d + 48) as char
    } else {
        (d + 87) as char
    }
}

/// Bytes in lower-case hexadecimal.
pub fn to_hex(b: &Vec<u8>) -> (r: String)
    ensures
        r@ == hex_of(b@),
{
    let mut out = String::new();
    let mut i: usize = 0;
    assert(b@.take(0) =~= Seq::<u8>::empty());
    while i < b.len()
        invariant
            i <= b@.len(),
            out@ == hex_of(b@.take(i as int)),
        decreases b@.len() - i,
    {
        let x = b[i];
        push_char(&mut out, hex_char(x / 16));
        push_char(&mut out, hex_char(x % 16));
        assert(b@.take(i + 1).drop_last() =~= b@.take(i as int));
        i += 1;
        assert(out@ =~= hex_of(b@.take(i as int)));
    }
    assert(b@.take(i as int) =~= b@);
    out
}

/// The digest of some contents, in lower-case hexadecimal.
pub fn content_digest(data: &Vec<u8>) -> (r: String)
    ensures
        r@ == hex_of(sha256_of(data@)),
{
    let d = sha256(data.as_slice());
    to_hex(&d)
}

/// Whether file `i` repeats the digest of an earlier file; a file without a
/// digest repeats nothing.
pub open spec fn is_duplicate(ds: Seq<Option<Seq<char>>>, i: int) -> bool {
    ds[i] is Some && exists|j: int| 0 <= j < i && ds[j] == ds[i]
}

/// The digests, as character sequences.
pub open spec fn digests_view(v: Seq<Option<String>>) -> Seq<Option<Seq<char>>> {
    v.map_values(|d: Option<String>| match d {
        Some(s) => Some(s@),
        None => None,
    })
}

/// The mark recorded as the destination of a deleted file.
pub open spec fn deleted_mark(p: Seq<char>) -> Seq<char> {
    "DELETED::"@ + p
}

/// The deletions among the first files, in order, each from the file's path
/// to its mark.
pub open spec fn dedup_plan(files: Seq<Seq<char>>, ds: Seq<Option<Seq<char>>>, n: int) -> Seq<
    (Seq<char>, Seq<char>),
>
    decreases n,
{
    if n <= 0 {
        Seq::empty()
    } else if is_duplicate(ds, n - 1) {
        dedup_plan(files, ds, n - 1).push((files[n - 1], deleted_mark(files[n - 1])))
    } else {
        dedup_plan(files, ds, n - 1)
    }
}

fn same_digest(a: &Option<String>, b: &Option<String>) -> (r: bool)
    ensures
        r == (a is Some && b is Some && a->Some_0@ == b->Some_0@),
{
    match (a, b) {
        (Some(x), Some(y)) => *x == *y,
        _ => false,
    }
}

/// Plans the removal of duplicates among `files`, whose digests are
/// `digests` (none where a file could not be read): every file whose digest
/// an earlier file has is deleted, and the first file of each digest stays.
pub fn remove_duplicates(files: &Vec<String>, digests: &Vec<Option<String>>, now: Timestamp) -> (r:
    OrganizeAction)
    requires
        files@.len() == digests@.len(),
    ensures
        r.action_type == ActionKind::RemoveDuplicates,
        r.timestamp == now,
        moves_view(r.moves@) == dedup_plan(
            files@.map_values(|s: String| s@),
            digests_view(digests@),
            files@.len() as int,
        ),
{
    let ghost fv = files@.map_values(|s: String| s@);
    let ghost dv = digests_view(digests@);
    let mut moves: Vec<FileMove> = Vec::new();
    let mut i: usize = 0;
    while i < files.len()
        invariant
            files@.len() == digests@.len(),
            fv == files@.map_values(|s: String| s@),
            dv == digests_view(digests@),
            i <= files@.len(),
            moves_view(moves@) == dedup_plan(fv, dv, i as int),
        decreases files@.len() - i,
    {
        let mut dup = false;
        let mut j: usize = 0;
        while j < i
            invariant
                files@.len() == digests@.len(),
                dv == digests_view(digests@),
                i < files@.len(),
                j <= i,
                dup == (dv[i as int] is Some && exists|k: int| 0 <= k < j && dv[k] == dv[i as int]),
            decreases i - j,
        {
            if same_digest(&digests[j], &digests[i]) {
                dup = true;
            }
            proof {
                if dv[j as int] == dv[i as int] && dv[i as int] is Some {
                    assert(digests@[j as int] is Some);
                }
            }
            j += 1;
        }
        if dup {
            let mut mark = String::from_str("DELETED::");
            mark.append(files[i].as_str());
            let ghost before = moves@;
            moves.push(FileMove { from: files[i].clone(), to: mark });
            assert(moves_view(moves@) =~= moves_view(before).push((fv[i as int], deleted_mark(fv[i as int]))));
        }
        i += 1;
    }
    OrganizeAction { timestamp: now, action_type: ActionKind::RemoveDuplicates, moves }
}

proof fn lemma_first_of_digest(ds: Seq<Option<Seq<char>>>, i: int)
    requires
        0 <= i < ds.len(),
        ds[i] is Some,
    ensures
        exists|j: int| 0 <= j <= i && ds[j] == ds[i] && !is_duplicate(ds, j),
    decreases i,
{
    if is_duplicate(ds, i) {
        let j = choose|j: int| 0 <= j < i && ds[j] == ds[i];
        lemma_first_of_digest(ds, j);
        let k = choose|k: int| 0 <= k <= j && ds[k] == ds[j] && !is_duplicate(ds, k);
        assert(0 <= k <= i && ds[k] == ds[i] && !is_duplicate(ds, k));
    } else {
        assert(0 <= i <= i && ds[i] == ds[i] && !is_duplicate(ds, i));
    }
}

/// Duplicate removal keeps exactly one file of each digest, whatever the
/// order of the files: every digest that occurs is kept by some file, no two
/// kept files share a digest, and a file whose digest no other file has, or
/// that has none, is kept.
pub proof fn law_one_survivor_per_digest(ds: Seq<Option<Seq<char>>>)
    ensures
        forall|i: int|
            0 <= i < ds.len() && (#[trigger] ds[i]) is Some ==> exists|j: int|
                0 <= j < ds.len() && ds[j] == ds[i] && !is_duplicate(ds, j),
        forall|i: int, j: int|
            0 <= i < j < ds.len() && ds[i] is Some && !is_duplicate(ds, i) && !is_duplicate(ds, j)
                ==> #[trigger] ds[i] != #[trigger] ds[j],
        forall|i: int|
            0 <= i < ds.len() && (forall|j: int| 0 <= j < ds.len() && j != i ==> ds[j] != ds[i])
                ==> !#[trigger] is_duplicate(ds, i),
        forall|i: int| 0 <= i < ds.len() && ds[i] is None ==> !#[trigger] is_duplicate(ds, i),
{
    assert forall|i: int|
        0 <= i < ds.len() && (#[trigger] ds[i]) is Some implies exists|j: int|
            0 <= j < ds.len() && ds[j] == ds[i] && !is_duplicate(ds, j) by {
        lemma_first_of_digest(ds, i);
    }
    assert forall|i: int, j: int|
        0 <= i < j < ds.len() && ds[i] is Some && !is_duplicate(ds, i) && !is_duplicate(ds, j)
            implies #[trigger] ds[i] != #[trigger] ds[j] by {
        if ds[i] == ds[j] {
            assert(is_duplicate(ds, j));
        }
    }
}

/// Whether some planned deletion removes the file at `p`.
pub open spec fn deletes(plan: Seq<(Seq<char>, Seq<char>)>, p: Seq<char>) -> bool {
    exists|k: int| 0 <= k < plan.len() && (#[trigger] plan[k]).0 == p
}

/// Duplicate removal deletes a file exactly when an earlier file has its
/// digest: among files at distinct paths, file `i` is deleted if and only if
/// it is a duplicate, so by `law_one_survivor_per_digest` exactly one file
/// of each digest survives and every file with a digest of its own, or with
/// none, is kept.
pub proof fn law_deletes_exactly_duplicates(files: Seq<Seq<char>>, ds: Seq<Option<Seq<char>>>, n: int)
    requires
        files.len() == ds.len(),
        0 <= n <= files.len(),
        forall|i: int, j: int| 0 <= i < j < files.len() ==> #[trigger] files[i] != #[trigger] files[j],
    ensures
        forall|i: int| 0 <= i < n ==> (deletes(dedup_plan(files, ds, n), #[trigger] files[i]) <==> is_duplicate(ds, i)),
        forall|k: int| 0 <= k < dedup_plan(files, ds, n).len() ==> exists|j: int|
            0 <= j < n && (#[trigger] dedup_plan(files, ds, n)[k]).0 == files[j],
    decreases n,
{
    if n > 0 {
        law_deletes_exactly_duplicates(files, ds, n - 1);
        let prev = dedup_plan(files, ds, n - 1);
        let cur = dedup_plan(files, ds, n);
        assert forall|k: int| 0 <= k < cur.len() implies exists|j: int|
            0 <= j < n && (#[trigger] cur[k]).0 == files[j] by {
            if k < prev.len() {
                assert(cur[k] == prev[k]);
                let j = choose|j: int| 0 <= j < n - 1 && (#[trigger] prev[k]).0 == files[j];
                assert(0 <= j < n && cur[k].0 == files[j]);
            } else {
                assert(cur[k].0 == files[n - 1]);
            }
        }
        assert forall|i: int| 0 <= i < n implies (deletes(cur, #[trigger] files[i]) <==> is_duplicate(ds, i)) by {
            if deletes(cur, files[i]) {
                let k = choose|k: int| 0 <= k < cur.len() && (#[trigger] cur[k]).0 == files[i];
                if k < prev.len() {
                    assert(cur[k] == prev[k]);
                    let j = choose|j: int| 0 <= j < n - 1 && (#[trigger] prev[k]).0 == files[j];
                    assert(i == j);
                    if i < n - 1 {
                        assert(deletes(prev, files[i]));
                    }
                } else {
                    assert(i == n - 1);
                }
            }
            if is_duplicate(ds, i) {
                if i < n - 1 {
                    assert(deletes(prev, files[i]));
                    let k = choose|k: int| 0 <= k < prev.len() && (#[trigger] prev[k]).0 == files[i];
                    assert(cur[k] == prev[k]);
                } else {
                    assert(cur[prev.len() as int].0 == files[i]);
                }
            }
        }
    }
}

/// The digests that occur among the files.
pub open spec fn digest_set(ds: Seq<Option<Seq<char>>>) -> Set<Seq<char>> {
    Set::new(|d: Seq<char>| exists|i: int| 0 <= i < ds.len() && ds[i] == Some(d))
}

/// The digests of the files that duplicate removal keeps.
pub open spec fn kept_digest_set(ds: Seq<Option<Seq<char>>>) -> Set<Seq<char>> {
    Set::new(|d: Seq<char>| exists|i: int| 0 <= i < ds.len() && ds[i] == Some(d) && !is_duplicate(ds, i))
}

/// The kept files hold every digest that occurs, so two runs over the same
/// files listed in different orders keep the same contents: the set of kept
/// digests depends only on the set of digests.
pub proof fn law_kept_digests(ds: Seq<Option<Seq<char>>>)
    ensures
        kept_digest_set(ds) == digest_set(ds),
{
    assert forall|d: Seq<char>| digest_set(ds).contains(d) implies kept_digest_set(ds).contains(d) by {
        let i = choose|i: int| 0 <= i < ds.len() && ds[i] == Some(d);
        lemma_first_of_digest(ds, i);
        let j = choose|j: int| 0 <= j <= i && ds[j] == ds[i] && !is_duplicate(ds, j);
        assert(0 <= j < ds.len() && ds[j] == Some(d) && !is_duplicate(ds, j));
    }
    assert(kept_digest_set(ds) =~= digest_set(ds));
}

} // verus!
