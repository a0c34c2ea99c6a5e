//! Reversing the most recent operation of the history.
use vstd::prelude::*;
use crate::actions::{ActionKind, OrganizeAction};
use crate::error::OrganizeError;
use crate::dates::Timestamp;
use crate::flatten::{flat_base, flat_candidates, flat_select, flattened, flatten_origin, flatten_origin_path};
use crate::strategies::{is_shallow, organized, shallow_base, Entry};
use crate::moves::{lemma_round_trip, moves_view, replay, reversal, valid_moves, FileMove};
use crate::paths::{dir_prefix, split_path};

verus! {

/// One step of an undo, to be carried out in order.
#[derive(Debug, Clone)]
pub enum UndoStep {
    /// Move `source` back to `target` if `source` still exists; where it does
    /// not, the step fails.
    MoveBack { source: String, target: String },
    /// Create `parent` and the folders above it where missing, then move
    /// `source` to `target`.
    Unflatten { source: String, target: String, parent: String },
    /// The file that was at `path` was deleted as a duplicate and cannot be
    /// brought back: the step fails.
    Unrestorable { path: String },
}

/// The rename that a step performs where it succeeds.
pub open spec fn step_rename(s: UndoStep) -> (Seq<char>, Seq<char>) {
    match s {
        UndoStep::MoveBack { source, target } => (source@, target@),
        UndoStep::Unflatten { source, target, .. } => (source@, target@),
        UndoStep::Unrestorable { path } => (path@, path@),
    }
}

/// The renames of a sequence of steps.
pub open spec fn step_renames(steps: Seq<UndoStep>) -> Seq<(Seq<char>, Seq<char>)> {
    steps.map_values(|s: UndoStep| step_rename(s))
}

/// The step that reverses move `m` of an operation of kind `kind` in `folder`.
pub open spec fn reverses(folder: Seq<char>, kind: ActionKind, s: UndoStep, m: FileMove) -> bool {
    match kind {
        ActionKind::Flatten => s matches UndoStep::Unflatten { source, target, parent } && source@
            == m.to@ && target@ == flatten_origin(folder, m.to@) && parent@ == dir_prefix(target@),
        ActionKind::RemoveDuplicates => s matches UndoStep::Unrestorable { path } && path@
            == m.from@,
        _ => s matches UndoStep::MoveBack { source, target } && source@ == m.to@ && target@
            == m.from@,
    }
}

/// Whether `steps` reverse `moves` one by one, the last move first.
pub open spec fn reverses_all(
    folder: Seq<char>,
    kind: ActionKind,
    steps: Seq<UndoStep>,
    moves: Seq<FileMove>,
) -> bool {
    &&& steps.len() == moves.len()
    &&& forall|i: int|
        0 <= i < steps.len() ==> reverses(folder, kind, #[trigger] steps[i], moves[moves.len() - 1 - i])
}

/// What undoing the most recent operation does.
pub struct UndoPlan {
    /// The kind of the operation undone.
    pub action_type: ActionKind,
    /// The steps, in the order they are carried out.
    pub steps: Vec<UndoStep>,
    /// Whether empty folders directly inside the directory (not hidden) are
    /// removed afterwards.
    pub prune_empty_dirs: bool,
}

fn reverse_step(folder: &str, kind: ActionKind, m: &FileMove) -> (r: UndoStep)
    ensures
        reverses(folder@, kind, r, *m),
{
    match kind {
        ActionKind::Flatten => {
            let target = flatten_origin_path(folder, &m.to);
            let (parent, _stem, _ext) = split_path(&target);
            UndoStep::Unflatten { source: m.to.clone(), target, parent }
        },
        ActionKind::RemoveDuplicates => UndoStep::Unrestorable { path: m.from.clone() },
        _ => UndoStep::MoveBack { source: m.to.clone(), target: m.from.clone() },
    }
}

/// Takes the most recent operation off the history and plans its reversal:
/// one step per move, the last move first. Nothing where the history is
/// empty.
pub fn undo_last_action(folder: &str, actions: &mut Vec<OrganizeAction>) -> (r: Option<UndoPlan>)
    ensures
        old(actions)@.len() == 0 ==> r is None && final(actions)@ == old(actions)@,
        old(actions)@.len() > 0 ==> {
            let last = old(actions)@.last();
            &&& final(actions)@ == old(actions)@.drop_last()
            &&& r matches Some(p) && p.action_type == last.action_type
                && p.prune_empty_dirs == (last.action_type != ActionKind::Flatten)
                && reverses_all(folder@, last.action_type, p.steps@, last.moves@)
        },
{
    let last = match actions.pop() {
        Some(a) => a,
        None => return None,
    };
    let kind = last.action_type;
    let n = last.moves.len();
    let mut steps: Vec<UndoStep> = Vec::new();
    let mut i: usize = 0;
    while i < n
        invariant
            n == last.moves@.len(),
            i <= n,
            steps@.len() == i,
            forall|k: int|
                0 <= k < i ==> reverses(folder@, kind, #[trigger] steps@[k], last.moves@[n - 1 - k]),
        decreases n - i,
    {
        let s = reverse_step(folder, kind, &last.moves[n - 1 - i]);
        steps.push(s);
        i += 1;
    }
    Some(UndoPlan { action_type: kind, steps, prune_empty_dirs: kind != ActionKind::Flatten })
}

/// Organising by type, date, modified date, name or size and then undoing
/// restores every path: where each move found its source present and its
/// destination free, carrying out the undo steps that reverse the moves
/// brings back exactly the paths that existed before.
pub proof fn law_undo_restores(
    s: Set<Seq<char>>,
    folder: Seq<char>,
    kind: ActionKind,
    moves: Seq<FileMove>,
    steps: Seq<UndoStep>,
)
    requires
        kind != ActionKind::Flatten,
        kind != ActionKind::RemoveDuplicates,
        valid_moves(s, moves_view(moves)),
        reverses_all(folder, kind, steps, moves),
    ensures
        replay(replay(s, moves_view(moves)), step_renames(steps)) == s,
{
    assert(step_renames(steps) =~= reversal(moves_view(moves)));
    lemma_round_trip(s, moves_view(moves));
}

/// Flattening and then undoing restores every path: where each move found
/// its source present and its destination free, and each file's flat name
/// spells its former path (so `root/a/b/file.txt`, flattened to
/// `root/a___b___file.txt`, returns to `root/a/b/file.txt`), the undo steps
/// bring back exactly the paths that existed before.
pub proof fn law_unflatten_restores(
    s: Set<Seq<char>>,
    root: Seq<char>,
    moves: Seq<FileMove>,
    steps: Seq<UndoStep>,
)
    requires
        valid_moves(s, moves_view(moves)),
        forall|k: int| 0 <= k < moves.len() ==> flatten_origin(root, (#[trigger] moves[k]).to@) == moves[k].from@,
        reverses_all(root, ActionKind::Flatten, steps, moves),
    ensures
        replay(replay(s, moves_view(moves)), step_renames(steps)) == s,
{
    assert forall|i: int| 0 <= i < steps.len() implies step_renames(steps)[i] == reversal(moves_view(moves))[i] by {
        let m = moves[moves.len() - 1 - i];
        assert(reverses(root, ActionKind::Flatten, steps[i], m));
        assert(flatten_origin(root, m.to@) == m.from@);
    }
    assert(step_renames(steps) =~= reversal(moves_view(moves)));
    lemma_round_trip(s, moves_view(moves));
}

/// Undoing what a strategy that sorts the top level returned restores every
/// path that existed before it ran.
pub proof fn law_organize_then_undo(
    folder: Seq<char>,
    kind: ActionKind,
    es: Seq<Entry>,
    occupied: Set<Seq<char>>,
    now: Timestamp,
    r: Result<OrganizeAction, OrganizeError>,
    steps: Seq<UndoStep>,
)
    requires
        is_shallow(kind),
        organized(folder, kind, es, occupied, now, r),
        r is Ok,
        reverses_all(folder, kind, steps, r->Ok_0.moves@),
    ensures
        ({
            let base = shallow_base(folder, kind, es, occupied);
            replay(replay(base, moves_view(r->Ok_0.moves@)), step_renames(steps)) == base
        }),
{
    law_undo_restores(shallow_base(folder, kind, es, occupied), folder, kind, r->Ok_0.moves@, steps);
}

/// Undoing a flattening in which every file kept its flat name restores
/// every path that existed before it ran.
pub proof fn law_flatten_then_undo(
    root: Seq<char>,
    rels: Seq<Seq<char>>,
    occupied: Set<Seq<char>>,
    now: Timestamp,
    r: Result<OrganizeAction, OrganizeError>,
    steps: Seq<UndoStep>,
)
    requires
        flattened(root, rels, occupied, now, r),
        r is Ok,
        forall|k: int|
            0 <= k < r->Ok_0.moves@.len() ==> (#[trigger] r->Ok_0.moves@[k]).to@ == flat_candidates(
                root,
                flat_select(root, rels),
            )[k],
        reverses_all(root, ActionKind::Flatten, steps, r->Ok_0.moves@),
    ensures
        ({
            let base = flat_base(root, rels, occupied);
            replay(replay(base, moves_view(r->Ok_0.moves@)), step_renames(steps)) == base
        }),
{
    let moves = r->Ok_0.moves@;
    assert forall|k: int| 0 <= k < moves.len() implies flatten_origin(root, (#[trigger] moves[k]).to@)
        == moves[k].from@ by {
        assert(moves[k].to@ == flat_candidates(root, flat_select(root, rels))[k]);
    }
    law_unflatten_restores(flat_base(root, rels, occupied), root, moves, steps);
}

} // verus!
