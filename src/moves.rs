//! File moves, their effect on the set of existing paths, and the planning
//! of a batch of moves with conflict resolution.
use vstd::prelude::*;
use crate::conflict::{handle_name_conflict, resolve_spec, views};
use crate::error::OrganizeError;

verus! {

/// One relocation: the file at `from` now lives at `to`.
#[derive(Debug, Clone)]
pub struct FileMove {
    pub from: String,
    pub to: String,
}

impl View for FileMove {
    type V = (Seq<char>, Seq<char>);

    open spec fn view(&self) -> (Seq<char>, Seq<char>) {
        (self.from@, self.to@)
    }
}

/// The characters of each string.
pub open spec fn strings_view(v: Seq<String>) -> Seq<Seq<char>> {
    v.map_values(|s: String| s@)
}

/// Each move as a pair of source and destination.
pub open spec fn moves_view(ms: Seq<FileMove>) -> Seq<(Seq<char>, Seq<char>)> {
    ms.map_values(|m: FileMove| m@)
}

/// The existing paths after renaming `m.0` to `m.1`; a rename whose source
/// is missing changes nothing.
pub open spec fn step(s: Set<Seq<char>>, m: (Seq<char>, Seq<char>)) -> Set<Seq<char>> {
    if s.contains(m.0) {
        s.remove(m.0).insert(m.1)
    } else {
        s
    }
}

/// The existing paths after the renames of `ms`, in order.
pub open spec fn replay(s: Set<Seq<char>>, ms: Seq<(Seq<char>, Seq<char>)>) -> Set<Seq<char>>
    decreases ms.len(),
{
    if ms.len() == 0 {
        s
    } else {
        step(replay(s, ms.drop_last()), ms.last())
    }
}

/// Each rename of `ms`, when its turn comes, finds its source present and
/// its destination free.
pub open spec fn valid_moves(s: Set<Seq<char>>, ms: Seq<(Seq<char>, Seq<char>)>) -> bool
    decreases ms.len(),
{
    ms.len() == 0 || {
        let before = replay(s, ms.drop_last());
        &&& valid_moves(s, ms.drop_last())
        &&& before.contains(ms.last().0)
        &&& !before.contains(ms.last().1)
    }
}

/// The renames that take `ms` back: last first, each from its destination
/// to its source.
pub open spec fn reversal(ms: Seq<(Seq<char>, Seq<char>)>) -> Seq<(Seq<char>, Seq<char>)> {
    Seq::new(ms.len(), |i: int| (ms[ms.len() - 1 - i].1, ms[ms.len() - 1 - i].0))
}

proof fn lemma_replay_front(
    s: Set<Seq<char>>,
    m: (Seq<char>, Seq<char>),
    rest: Seq<(Seq<char>, Seq<char>)>,
)
    ensures
        replay(s, seq![m] + rest) == replay(step(s, m), rest),
    decreases rest.len(),
{
    let whole = seq![m] + rest;
    if rest.len() == 0 {
        assert(whole.drop_last() =~= Seq::<(Seq<char>, Seq<char>)>::empty());
        assert(whole.last() == m);
        assert(replay(s, whole.drop_last()) == s);
    } else {
        assert(whole.drop_last() =~= seq![m] + rest.drop_last());
        assert(whole.last() == rest.last());
        lemma_replay_front(s, m, rest.drop_last());
    }
}

/// Renames that were each made from a present source to a free destination
/// are undone exactly by their reversal: the paths that existed before are
/// the paths that exist after.
pub proof fn lemma_round_trip(s: Set<Seq<char>>, ms: Seq<(Seq<char>, Seq<char>)>)
    requires
        valid_moves(s, ms),
    ensures
        replay(replay(s, ms), reversal(ms)) == s,
    decreases ms.len(),
{
    if ms.len() == 0 {
        assert(reversal(ms) =~= Seq::<(Seq<char>, Seq<char>)>::empty());
    } else {
        let p = ms.drop_last();
        let m = ms.last();
        let before = replay(s, p);
        let after = replay(s, ms);
        assert(reversal(ms) =~= seq![(m.1, m.0)] + reversal(p));
        lemma_replay_front(after, (m.1, m.0), reversal(p));
        assert(step(after, (m.1, m.0)) =~= before);
        lemma_round_trip(s, p);
    }
}

proof fn lemma_views_push(v: Seq<String>, x: String)
    ensures
        views(v.push(x)) == views(v).insert(x@),
{
    assert forall|p: Seq<char>| views(v.push(x)).contains(p) implies views(v).insert(x@).contains(p) by {
        let i = choose|i: int| 0 <= i < v.push(x).len() && (#[trigger] v.push(x)[i])@ == p;
        if i < v.len() {
            assert(v[i]@ == p);
        }
    }
    assert forall|p: Seq<char>| views(v).insert(x@).contains(p) implies views(v.push(x)).contains(p) by {
        if p == x@ {
            assert(v.push(x)[v.len() as int]@ == p);
        } else {
            let i = choose|i: int| 0 <= i < v.len() && (#[trigger] v[i])@ == p;
            assert(v.push(x)[i]@ == p);
        }
    }
    assert(views(v.push(x)) =~= views(v).insert(x@));
}

/// The destinations chosen for `cands`, in order: each candidate resolved
/// against `base` and the destinations chosen before it; nothing where some
/// candidate cannot be resolved.
pub open spec fn plan_spec(base: Set<Seq<char>>, cands: Seq<Seq<char>>) -> Option<Seq<Seq<char>>>
    decreases cands.len(),
{
    if cands.len() == 0 {
        Some(Seq::empty())
    } else {
        match plan_spec(base, cands.drop_last()) {
            Some(ds) => match resolve_spec(base + ds.to_set(), cands.last()) {
                Some(d) => Some(ds.push(d)),
                None => None,
            },
            None => None,
        }
    }
}

/// A plan names one destination for each candidate.
pub proof fn lemma_plan_len(base: Set<Seq<char>>, cands: Seq<Seq<char>>)
    ensures
        plan_spec(base, cands) matches Some(ds) ==> ds.len() == cands.len(),
    decreases cands.len(),
{
    if cands.len() > 0 {
        lemma_plan_len(base, cands.drop_last());
    }
}

proof fn lemma_plan_none_extends(base: Set<Seq<char>>, cands: Seq<Seq<char>>, j: int)
    requires
        0 <= j <= cands.len(),
        plan_spec(base, cands.take(j)) is None,
    ensures
        plan_spec(base, cands) is None,
    decreases cands.len() - j,
{
    if j == cands.len() {
        assert(cands.take(j) =~= cands);
    } else {
        assert(cands.take(j + 1).drop_last() =~= cands.take(j));
        lemma_plan_none_extends(base, cands, j + 1);
    }
}

/// Whether no two entries of `v` are equal strings.
pub open spec fn distinct_strings(v: Seq<String>) -> bool {
    forall|i: int, j: int| 0 <= i < j < v.len() ==> (#[trigger] v[i])@ != (#[trigger] v[j])@
}

/// Moves each of `sources` to the resolution of its candidate, in order,
/// against the paths of `occupied`, the sources, and the destinations
/// chosen before. Fails where some candidate has no free variant.
pub(crate) fn plan_moves(sources: &Vec<String>, cands: &Vec<String>, occupied: &Vec<String>) -> (r: Result<
    Vec<FileMove>,
    OrganizeError,
>)
    requires
        sources@.len() == cands@.len(),
        distinct_strings(sources@),
    ensures
        match plan_spec(views(occupied@) + views(sources@), strings_view(cands@)) {
            Some(ds) => r matches Ok(ms) && ms@.len() == sources@.len() && forall|k: int|
                0 <= k < ms@.len() ==> (#[trigger] ms@[k]).from@ == sources@[k]@ && ms@[k].to@
                    == ds[k],
            None => r == Err::<Vec<FileMove>, OrganizeError>(
                OrganizeError::ConflictResolutionExhausted,
            ),
        },
        r matches Ok(ms) ==> valid_moves(views(occupied@) + views(sources@), moves_view(ms@)),
{
    let ghost base = views(occupied@) + views(sources@);
    let ghost cv = strings_view(cands@);
    let mut taken: Vec<String> = Vec::new();
    let mut j: usize = 0;
    assert(views(taken@) =~= Set::<Seq<char>>::empty());
    while j < occupied.len()
        invariant
            j <= occupied@.len(),
            views(taken@) == views(occupied@.take(j as int)),
        decreases occupied@.len() - j,
    {
        let s = occupied[j].clone();
        proof {
            lemma_views_push(taken@, s);
            lemma_views_push(occupied@.take(j as int), occupied@[j as int]);
            assert(occupied@.take(j + 1) =~= occupied@.take(j as int).push(occupied@[j as int]));
        }
        taken.push(s);
        j += 1;
    }
    assert(occupied@.take(j as int) =~= occupied@);
    j = 0;
    assert(sources@.take(0) =~= Seq::<String>::empty());
    assert(views(Seq::<String>::empty()) =~= Set::<Seq<char>>::empty());
    assert(views(occupied@) + views(Seq::<String>::empty()) =~= views(occupied@));
    while j < sources.len()
        invariant
            j <= sources@.len(),
            views(taken@) == views(occupied@) + views(sources@.take(j as int)),
        decreases sources@.len() - j,
    {
        let s = sources[j].clone();
        proof {
            lemma_views_push(taken@, s);
            lemma_views_push(sources@.take(j as int), sources@[j as int]);
            assert(sources@.take(j + 1) =~= sources@.take(j as int).push(sources@[j as int]));
            assert(views(occupied@) + views(sources@.take(j + 1)) =~= (views(occupied@) + views(
                sources@.take(j as int),
            )).insert(s@));
        }
        taken.push(s);
        j += 1;
    }
    assert(sources@.take(j as int) =~= sources@);
    let mut moves: Vec<FileMove> = Vec::new();
    let mut i: usize = 0;
    let ghost mut ds: Seq<Seq<char>> = Seq::empty();
    assert(cv.take(0) =~= Seq::<Seq<char>>::empty());
    assert(moves_view(moves@) =~= Seq::<(Seq<char>, Seq<char>)>::empty());
    assert forall|k: int| 0 <= k < sources@.len() implies replay(base, moves_view(moves@)).contains(
        (#[trigger] sources@[k])@,
    ) by {
        assert(views(sources@).contains(sources@[k]@));
    }
    assert(ds.to_set() =~= Set::<Seq<char>>::empty());
    while i < sources.len()
        invariant
            sources@.len() == cands@.len(),
            distinct_strings(sources@),
            base == views(occupied@) + views(sources@),
            cv == strings_view(cands@),
            i <= sources@.len(),
            moves@.len() == i,
            ds.len() == i,
            plan_spec(base, cv.take(i as int)) == Some(ds),
            views(taken@) == base + ds.to_set(),
            forall|k: int|
                0 <= k < i ==> (#[trigger] moves@[k]).from@ == sources@[k]@ && moves@[k].to@
                    == ds[k],
            valid_moves(base, moves_view(moves@)),
            replay(base, moves_view(moves@)).subset_of(base + ds.to_set()),
            forall|k: int|
                i <= k < sources@.len() ==> replay(base, moves_view(moves@)).contains(
                    (#[trigger] sources@[k])@,
                ),
        decreases sources@.len() - i,
    {
        let ghost before = replay(base, moves_view(moves@));
        assert(cv.take(i + 1).drop_last() =~= cv.take(i as int));
        assert(cv.take(i + 1).last() == cands@[i as int]@);
        let res = handle_name_conflict(&cands[i], &taken);
        match res {
            Ok(dest) => {
                let ghost f = sources@[i as int]@;
                let ghost t = dest@;
                assert(before.contains(f));
                proof {
                    crate::conflict::lemma_resolved_is_free(views(taken@), cands@[i as int]@);
                }
                assert(!before.contains(t));
                let mv = FileMove { from: sources[i].clone(), to: dest.clone() };
                proof {
                    lemma_views_push(taken@, dest);
                }
                taken.push(dest);
                let ghost old_moves = moves@;
                moves.push(mv);
                proof {
                    assert(moves_view(moves@) =~= moves_view(old_moves).push((f, t)));
                    assert(moves_view(moves@).drop_last() =~= moves_view(old_moves));
                    let after = replay(base, moves_view(moves@));
                    assert(after == before.remove(f).insert(t));
                    let old_ds = ds;
                    ds = ds.push(t);
                    old_ds.lemma_push_to_set_commute(t);
                    assert(base + ds.to_set() =~= (base + old_ds.to_set()).insert(t));
                    assert(views(taken@) == (base + old_ds.to_set()).insert(t));
                    assert(after.subset_of(base + ds.to_set()));
                    assert forall|k: int| i + 1 <= k < sources@.len() implies after.contains(
                        (#[trigger] sources@[k])@,
                    ) by {
                        assert(before.contains(sources@[k]@));
                        assert(sources@[i as int]@ != sources@[k]@);
                    }
                }
                i += 1;
            },
            Err(e) => {
                proof {
                    lemma_plan_none_extends(base, cv, i + 1);
                }
                return Err(e);
            },
        }
    }
    assert(cv.take(i as int) =~= cv);
    Ok(moves)
}

/// The paths held in `v` are those of its views.
pub proof fn lemma_views_to_set(v: Seq<String>)
    ensures
        views(v) == strings_view(v).to_set(),
{
    assert forall|p: Seq<char>| views(v).contains(p) implies strings_view(v).to_set().contains(p) by {
        let i = choose|i: int| 0 <= i < v.len() && (#[trigger] v[i])@ == p;
        assert(strings_view(v)[i] == p);
    }
    assert forall|p: Seq<char>| strings_view(v).to_set().contains(p) implies views(v).contains(p) by {
        let i = choose|i: int| 0 <= i < strings_view(v).len() && strings_view(v)[i] == p;
        assert(v[i]@ == p);
    }
    assert(views(v) =~= strings_view(v).to_set());
}

} // verus!
