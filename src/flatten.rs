//! Flattening a tree into one level, with each file's former place written
//! into its name, and reading that place back.
use vstd::prelude::*;
use crate::actions::{ActionKind, OrganizeAction};
use crate::conflict::views;
use crate::dates::Timestamp;
use crate::error::OrganizeError;
use crate::moves::{lemma_views_to_set, moves_view, plan_moves, plan_spec, strings_view, valid_moves};
use crate::paths::{after_last, file_name_of, join, join_spec, last_index_of, lemma_join_injective};
use crate::text::{chars_of, contains_string, push_char, string_from};

verus! {

/// A relative path with each separator written as `___`.
pub open spec fn flat_name(rel: Seq<char>) -> Seq<char>
    decreases rel.len(),
{
    if rel.len() == 0 {
        rel
    } else if rel[0] == '/' {
        seq!['_', '_', '_'] + flat_name(rel.drop_first())
    } else {
        seq![rel[0]] + flat_name(rel.drop_first())
    }
}

/// A flat name with each `___`, read from the left, written as a separator.
pub open spec fn unflat_name(s: Seq<char>) -> Seq<char>
    decreases s.len(),
{
    if s.len() < 3 {
        s
    } else if s[0] == '_' && s[1] == '_' && s[2] == '_' {
        seq!['/'] + unflat_name(s.subrange(3, s.len() as int))
    } else {
        seq![s[0]] + unflat_name(s.drop_first())
    }
}

/// Where undoing a flattening puts the file at `to`: the path that its file
/// name spells, under `root`.
pub open spec fn flatten_origin(root: Seq<char>, to: Seq<char>) -> Seq<char> {
    join_spec(root, unflat_name(file_name_of(to)))
}

/// The flat name of a relative path.
pub fn encode_flat(rel: &String) -> (r: String)
    ensures
        r@ == flat_name(rel@),
{
    let cs = chars_of(rel.as_str());
    let n = cs.len();
    let mut out = String::new();
    let mut i: usize = 0;
    assert(cs@.subrange(0, n as int) =~= cs@);
    while i < n
        invariant
            n == cs@.len(),
            i <= n,
            out@ + flat_name(cs@.subrange(i as int, n as int)) == flat_name(cs@),
        decreases n - i,
    {
        let ghost rest = cs@.subrange(i as int, n as int);
        assert(rest.drop_first() =~= cs@.subrange(i + 1, n as int));
        if cs[i] == '/' {
            push_char(&mut out, '_');
            push_char(&mut out, '_');
            push_char(&mut out, '_');
        } else {
            push_char(&mut out, cs[i]);
        }
        i += 1;
        assert(out@ + flat_name(cs@.subrange(i as int, n as int)) =~= flat_name(cs@));
    }
    assert(cs@.subrange(n as int, n as int) =~= Seq::<char>::empty());
    assert(out@ + Seq::<char>::empty() =~= out@);
    out
}

/// The relative path that a flat name spells.
pub fn decode_flat(name: &String) -> (r: String)
    ensures
        r@ == unflat_name(name@),
{
    let cs = chars_of(name.as_str());
    let n = cs.len();
    let mut out = String::new();
    let mut i: usize = 0;
    assert(cs@.subrange(0, n as int) =~= cs@);
    while i < n
        invariant
            n == cs@.len(),
            i <= n,
            out@ + unflat_name(cs@.subrange(i as int, n as int)) == unflat_name(cs@),
        decreases n - i,
    {
        let ghost rest = cs@.subrange(i as int, n as int);
        if n - i >= 3 && cs[i] == '_' && cs[i + 1] == '_' && cs[i + 2] == '_' {
            assert(rest.subrange(3, rest.len() as int) =~= cs@.subrange(i + 3, n as int));
            push_char(&mut out, '/');
            i += 3;
        } else {
            assert(rest.drop_first() =~= cs@.subrange(i + 1, n as int));
            proof {
                if rest.len() < 3 {
                    assert(rest =~= seq![rest[0]] + rest.drop_first());
                }
            }
            push_char(&mut out, cs[i]);
            i += 1;
        }
        assert(out@ + unflat_name(cs@.subrange(i as int, n as int)) =~= unflat_name(cs@));
    }
    assert(cs@.subrange(n as int, n as int) =~= Seq::<char>::empty());
    assert(out@ + Seq::<char>::empty() =~= out@);
    out
}

/// Where undoing a flattening puts the file now at `to`.
pub fn flatten_origin_path(root: &str, to: &String) -> (r: String)
    ensures
        r@ == flatten_origin(root@, to@),
{
    let cs = chars_of(to.as_str());
    let start = after_last(&cs, '/');
    let name = string_from(&cs, start, cs.len());
    let rel = decode_flat(&name);
    join(root, rel.as_str())
}

/// Whether flattening moves the file at `rel` under `root`: it lies below
/// the top level, and its flat name spells its path back.
pub open spec fn flat_eligible(root: Seq<char>, rel: Seq<char>) -> bool {
    &&& last_index_of(rel, '/') >= 0
    &&& flatten_origin(root, join_spec(root, flat_name(rel))) == join_spec(root, rel)
}

/// The relative paths that flattening moves, in order; a path given twice
/// counts once.
pub open spec fn flat_select(root: Seq<char>, rels: Seq<Seq<char>>) -> Seq<Seq<char>>
    decreases rels.len(),
{
    if rels.len() == 0 {
        rels
    } else if flat_eligible(root, rels.last()) && !flat_select(root, rels.drop_last()).contains(
        rels.last(),
    ) {
        flat_select(root, rels.drop_last()).push(rels.last())
    } else {
        flat_select(root, rels.drop_last())
    }
}

/// The paths of the selected files.
pub open spec fn flat_sources(root: Seq<char>, sel: Seq<Seq<char>>) -> Seq<Seq<char>> {
    Seq::new(sel.len(), |k: int| join_spec(root, sel[k]))
}

/// The flat paths of the selected files, before conflicts are resolved.
pub open spec fn flat_candidates(root: Seq<char>, sel: Seq<Seq<char>>) -> Seq<Seq<char>> {
    Seq::new(sel.len(), |k: int| join_spec(root, flat_name(sel[k])))
}

/// The moves of a flattening: each selected file, in order, to its flat
/// path under `root`, under a name that nothing occupies.
pub open spec fn flat_plan(root: Seq<char>, rels: Seq<Seq<char>>, occupied: Set<Seq<char>>) -> Result<
    Seq<(Seq<char>, Seq<char>)>,
    OrganizeError,
> {
    let sel = flat_select(root, rels);
    match plan_spec(occupied + flat_sources(root, sel).to_set(), flat_candidates(root, sel)) {
        Some(ds) => Ok(Seq::new(sel.len(), |k: int| (flat_sources(root, sel)[k], ds[k]))),
        None => Err(OrganizeError::ConflictResolutionExhausted),
    }
}

/// The paths that exist before a flattening: those occupied, and the
/// selected files.
pub open spec fn flat_base(root: Seq<char>, rels: Seq<Seq<char>>, occupied: Set<Seq<char>>) -> Set<
    Seq<char>,
> {
    occupied + flat_sources(root, flat_select(root, rels)).to_set()
}

/// What flattening returns: the moves of `flat_plan` under `now`, or its
/// failure; the moves are valid against the paths that existed before, and
/// each file that kept its flat name has its former path spelled by it.
pub open spec fn flattened(
    root: Seq<char>,
    rels: Seq<Seq<char>>,
    occupied: Set<Seq<char>>,
    now: Timestamp,
    r: Result<OrganizeAction, OrganizeError>,
) -> bool {
    &&& match flat_plan(root, rels, occupied) {
        Ok(mv) => r matches Ok(a) && moves_view(a.moves@) == mv && a.action_type
            == ActionKind::Flatten && a.timestamp == now,
        Err(x) => r == Err::<OrganizeAction, OrganizeError>(x),
    }
    &&& r matches Ok(a) ==> {
        &&& valid_moves(flat_base(root, rels, occupied), moves_view(a.moves@))
        &&& forall|k: int|
            0 <= k < a.moves@.len() && (#[trigger] a.moves@[k]).to@ == flat_candidates(
                root,
                flat_select(root, rels),
            )[k] ==> flatten_origin(root, a.moves@[k].to@) == a.moves@[k].from@
    }
}

/// Whether no two of `s` are equal.
pub open spec fn distinct_seqs(s: Seq<Seq<char>>) -> bool {
    forall|i: int, j: int| 0 <= i < j < s.len() ==> #[trigger] s[i] != #[trigger] s[j]
}

/// Moves every file below the top level of `root` (given by `files`, its
/// path relative to `root`) to `root`, under its relative path with each
/// separator written as `___`, resolving conflicts against `occupied` and
/// the moves before. A file whose flat name would not spell its path back
/// stays where it is.
pub fn flatten_folder(root: &str, files: &Vec<String>, occupied: &Vec<String>, now: Timestamp) -> (r:
    Result<OrganizeAction, OrganizeError>)
    ensures
        flattened(root@, strings_view(files@), views(occupied@), now, r),
{
    let ghost rv = strings_view(files@);
    let mut sources: Vec<String> = Vec::new();
    let mut cands: Vec<String> = Vec::new();
    let mut chosen: Vec<String> = Vec::new();
    let ghost mut sel: Seq<Seq<char>> = Seq::empty();
    let mut i: usize = 0;
    assert(rv.take(0) =~= Seq::<Seq<char>>::empty());
    while i < files.len()
        invariant
            rv == strings_view(files@),
            i <= files@.len(),
            flat_select(root@, rv.take(i as int)) == sel,
            strings_view(sources@) == flat_sources(root@, sel),
            strings_view(cands@) == flat_candidates(root@, sel),
            forall|k: int| 0 <= k < sel.len() ==> flat_eligible(root@, #[trigger] sel[k]),
            strings_view(chosen@) == sel,
            distinct_seqs(sel),
        decreases files@.len() - i,
    {
        let rel = &files[i];
        assert(rv.take(i + 1).drop_last() =~= rv.take(i as int));
        assert(rv.take(i + 1).last() == rel@);
        let cs = chars_of(rel.as_str());
        let below_top = after_last(&cs, '/') > 0;
        let src = join(root, rel.as_str());
        let flat = encode_flat(rel);
        let cand = join(root, flat.as_str());
        let back = flatten_origin_path(root, &cand);
        let seen = contains_string(&chosen, rel);
        proof {
            assert(strings_view(chosen@).len() == chosen@.len());
            if seen {
                let k = choose|k: int| 0 <= k < chosen@.len() && (#[trigger] chosen@[k])@ == rel@;
                assert(sel[k] == rel@);
            } else {
                assert forall|k: int| 0 <= k < sel.len() implies sel[k] != rel@ by {
                    assert(strings_view(chosen@)[k] == chosen@[k]@);
                }
            }
        }
        if below_top && back == src && !seen {
            let ghost old_sources = sources@;
            let ghost old_cands = cands@;
            let ghost old_sel = sel;
            let ghost old_chosen = chosen@;
            proof {
                sel = sel.push(rel@);
            }
            chosen.push(rel.clone());
            assert(strings_view(chosen@) =~= sel) by {
                assert forall|k: int| 0 <= k < sel.len() implies strings_view(chosen@)[k] == sel[k] by {
                    if k < old_sel.len() {
                        assert(strings_view(old_chosen)[k] == old_sel[k]);
                    }
                }
            }
            assert forall|a: int, b: int| 0 <= a < b < sel.len() implies #[trigger] sel[a] != #[trigger] sel[b] by {
                if b < old_sel.len() {
                    assert(old_sel[a] == sel[a]);
                    assert(old_sel[b] == sel[b]);
                } else {
                    assert(old_sel[a] == sel[a]);
                }
            }
            sources.push(src);
            cands.push(cand);
            assert(strings_view(old_sources).len() == old_sel.len());
            assert(strings_view(old_cands).len() == old_sel.len());
            assert forall|k: int| 0 <= k < sel.len() implies strings_view(sources@)[k]
                == flat_sources(root@, sel)[k] by {
                if k < old_sel.len() {
                    assert(strings_view(old_sources)[k] == flat_sources(root@, old_sel)[k]);
                }
            }
            assert forall|k: int| 0 <= k < sel.len() implies strings_view(cands@)[k]
                == flat_candidates(root@, sel)[k] by {
                if k < old_sel.len() {
                    assert(strings_view(old_cands)[k] == flat_candidates(root@, old_sel)[k]);
                }
            }
            assert(strings_view(sources@) =~= flat_sources(root@, sel));
            assert(strings_view(cands@) =~= flat_candidates(root@, sel));
            assert forall|k: int| 0 <= k < sel.len() implies flat_eligible(root@, #[trigger] sel[k]) by {
                if k < old_sel.len() {
                    assert(sel[k] == old_sel[k]);
                }
            }
        }
        i += 1;
    }
    assert(rv.take(i as int) =~= rv);
    proof {
        lemma_views_to_set(sources@);
        assert forall|a: int, b: int| 0 <= a < b < sources@.len() implies (#[trigger] sources@[a])@
            != (#[trigger] sources@[b])@ by {
            assert(strings_view(sources@)[a] == sources@[a]@);
            assert(strings_view(sources@)[b] == sources@[b]@);
            if sources@[a]@ == sources@[b]@ {
                lemma_join_injective(root@, sel[a], sel[b]);
            }
        }
    }
    match plan_moves(&sources, &cands, occupied) {
        Ok(moves) => {
            let ghost base = views(occupied@) + flat_sources(root@, sel).to_set();
            let ghost ds = plan_spec(base, flat_candidates(root@, sel))->Some_0;
            proof {
                crate::moves::lemma_plan_len(base, flat_candidates(root@, sel));
            }
            assert(moves_view(moves@) =~= Seq::new(
                sel.len(),
                |k: int| (flat_sources(root@, sel)[k], ds[k]),
            )) by {
                assert forall|k: int| 0 <= k < moves@.len() implies moves_view(moves@)[k] == (
                    flat_sources(root@, sel)[k],
                    ds[k],
                ) by {
                    assert(strings_view(sources@)[k] == sources@[k]@);
                }
            }
            assert forall|k: int|
                0 <= k < moves@.len() && (#[trigger] moves@[k]).to@ == flat_candidates(root@, sel)[k]
                    implies flatten_origin(root@, moves@[k].to@) == moves@[k].from@ by {
                assert(strings_view(sources@)[k] == sources@[k]@);
                assert(flat_eligible(root@, sel[k]));
            }
            Ok(OrganizeAction { timestamp: now, action_type: ActionKind::Flatten, moves })
        },
        Err(x) => Err(x),
    }
}

} // verus!
