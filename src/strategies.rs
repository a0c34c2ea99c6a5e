//! The strategies that sort the files directly inside a directory into
//! folders: by type, by creation or modification month, by name, by size.
use vstd::prelude::*;
use crate::actions::{ActionKind, OrganizeAction};
use crate::categories::{type_folder, type_folder_for};
use crate::conflict::views;
use crate::dates::{date_folder, date_folder_for, utc_year_month_of, Timestamp};
use crate::error::OrganizeError;
use crate::moves::{lemma_views_to_set, moves_view, plan_moves, plan_spec, strings_view, valid_moves};
use crate::paths::{join, join_spec, lemma_join_injective};
use crate::text::contains_string;
use crate::ranges::{
    alpha_ranges, code_char, create_alphabetical_ranges, find_range_for_char, label_for,
    ranges_view, AlphaRange,
};
use crate::sizes::{bucket_label, bucket_of, size_bucket};

verus! {

/// A directory entry as the strategies see it.
#[derive(Debug, Clone)]
pub struct Entry {
    pub name: String,
    pub is_dir: bool,
    /// Length in bytes.
    pub len: u64,
    pub created: Option<Timestamp>,
    pub modified: Option<Timestamp>,
}

/// Whether a name is hidden: it starts with a dot.
pub open spec fn is_hidden(name: Seq<char>) -> bool {
    name.len() > 0 && name[0] == '.'
}

/// Whether a name is hidden: it starts with a dot.
pub fn is_hidden_name(name: &str) -> (r: bool)
    ensures
        r == is_hidden(name@),
{
    let n = name.unicode_len();
    n > 0 && name.get_char(0) == '.'
}

/// Whether the strategies move this entry: a file whose name is not hidden.
pub open spec fn eligible(e: Entry) -> bool {
    !e.is_dir && !is_hidden(e.name@)
}

/// Whether the strategies move this entry.
pub fn is_eligible(e: &Entry) -> (r: bool)
    ensures
        r == eligible(*e),
{
    !e.is_dir && !is_hidden_name(e.name.as_str())
}

/// `c` in upper case where it is an ASCII lower-case letter.
pub open spec fn ascii_upper(c: char) -> char {
    if 'a' <= c <= 'z' {
        code_char(c as int - 32)
    } else {
        c
    }
}

/// The first character of a name, `_` for an empty one.
pub open spec fn first_char(name: Seq<char>) -> char {
    if name.len() > 0 {
        name[0]
    } else {
        '_'
    }
}

/// The month folder for an instant that may be missing.
pub open spec fn month_folder_of(t: Option<Timestamp>) -> Result<Seq<char>, OrganizeError> {
    match t {
        None => Err(OrganizeError::MissingTimestamp),
        Some(t) => match utc_year_month_of(t.secs, t.nanos) {
            Some(ym) => Ok(date_folder(ym.0 as int, ym.1 as int)),
            None => Err(OrganizeError::TimestampOutOfRange),
        },
    }
}

/// Whether a kind of operation sorts the top level of a directory, with a
/// count of ranges of 1 or more when it goes by name.
pub open spec fn is_shallow(kind: ActionKind) -> bool {
    match kind {
        ActionKind::ByType | ActionKind::ByDate | ActionKind::ByModifiedDate
        | ActionKind::BySize => true,
        ActionKind::ByName(n) => 1 <= n,
        _ => false,
    }
}

/// The folder, relative to the directory, that a strategy gives an entry.
pub open spec fn shallow_folder(kind: ActionKind, e: Entry) -> Result<Seq<char>, OrganizeError> {
    match kind {
        ActionKind::ByDate => month_folder_of(e.created),
        ActionKind::ByModifiedDate => month_folder_of(e.modified),
        ActionKind::ByName(n) => Ok(
            label_for(ascii_upper(first_char(e.name@)), alpha_ranges(n as int)),
        ),
        ActionKind::BySize => Ok(bucket_label(bucket_of(e.len as int))),
        _ => Ok(type_folder(e.name@)),
    }
}

/// The names of the entries.
pub open spec fn names_of(es: Seq<Entry>) -> Seq<Seq<char>> {
    es.map_values(|e: Entry| e.name@)
}

/// The entries that a strategy moves, in order, with their folders; the
/// first failure to name a folder where there is one. An entry whose name
/// an earlier one already had is passed over.
pub open spec fn scan(kind: ActionKind, es: Seq<Entry>) -> Result<
    (Seq<Entry>, Seq<Seq<char>>),
    OrganizeError,
>
    decreases es.len(),
{
    if es.len() == 0 {
        Ok((Seq::empty(), Seq::empty()))
    } else {
        match scan(kind, es.drop_last()) {
            Err(x) => Err(x),
            Ok(pf) => if eligible(es.last()) && !names_of(pf.0).contains(es.last().name@) {
                match shallow_folder(kind, es.last()) {
                    Ok(f) => Ok((pf.0.push(es.last()), pf.1.push(f))),
                    Err(x) => Err(x),
                }
            } else {
                Ok(pf)
            },
        }
    }
}

/// Where the entries are now.
pub open spec fn sources_of(folder: Seq<char>, es: Seq<Entry>) -> Seq<Seq<char>> {
    Seq::new(es.len(), |k: int| join_spec(folder, es[k].name@))
}

/// Where the entries would go, before conflicts are resolved.
pub open spec fn candidates_of(folder: Seq<char>, es: Seq<Entry>, fs: Seq<Seq<char>>) -> Seq<
    Seq<char>,
> {
    Seq::new(es.len(), |k: int| join_spec(join_spec(folder, fs[k]), es[k].name@))
}

/// Whether no two entries share a name.
pub open spec fn names_distinct(es: Seq<Entry>) -> bool {
    forall|i: int, j: int| 0 <= i < j < es.len() ==> (#[trigger] es[i]).name@ != (#[trigger] es[j]).name@
}

/// The paths that exist before the moves: those occupied, and the sources.
pub open spec fn shallow_base(folder: Seq<char>, kind: ActionKind, es: Seq<Entry>, occupied: Set<Seq<char>>) -> Set<Seq<char>> {
    match scan(kind, es) {
        Ok(pf) => occupied + sources_of(folder, pf.0).to_set(),
        Err(_) => occupied,
    }
}

/// The moves that a strategy makes in `folder`: each eligible entry, in
/// order, to its folder, under a name that nothing occupies.
pub open spec fn shallow_plan(folder: Seq<char>, kind: ActionKind, es: Seq<Entry>, occupied: Set<Seq<char>>) -> Result<
    Seq<(Seq<char>, Seq<char>)>,
    OrganizeError,
> {
    match scan(kind, es) {
        Err(x) => Err(x),
        Ok(pf) => match plan_spec(
            occupied + sources_of(folder, pf.0).to_set(),
            candidates_of(folder, pf.0, pf.1),
        ) {
            Some(ds) => Ok(Seq::new(pf.0.len(), |k: int| (sources_of(folder, pf.0)[k], ds[k]))),
            None => Err(OrganizeError::ConflictResolutionExhausted),
        },
    }
}

/// What a strategy returns: the moves of `shallow_plan` under `kind` and
/// `now`, or its failure; the moves are valid against the paths that
/// existed before.
pub open spec fn organized(
    folder: Seq<char>,
    kind: ActionKind,
    es: Seq<Entry>,
    occupied: Set<Seq<char>>,
    now: Timestamp,
    r: Result<OrganizeAction, OrganizeError>,
) -> bool {
    &&& match shallow_plan(folder, kind, es, occupied) {
        Ok(mv) => r matches Ok(a) && moves_view(a.moves@) == mv && a.action_type == kind
            && a.timestamp == now,
        Err(x) => r == Err::<OrganizeAction, OrganizeError>(x),
    }
    &&& r matches Ok(a) ==> valid_moves(shallow_base(folder, kind, es, occupied), moves_view(a.moves@))
}

/// Organising by size names a folder for every file: each file it moves
/// goes to the folder of its size class, and every file that is not hidden
/// is moved (a name listed twice, once).
pub proof fn law_size_folders(es: Seq<Entry>)
    ensures
        scan(ActionKind::BySize, es) matches Ok(pf) && pf.0.len() == pf.1.len() && (forall|k: int|
            0 <= k < pf.0.len() ==> eligible(#[trigger] pf.0[k]) && pf.1[k] == bucket_label(
                bucket_of(pf.0[k].len as int),
            )) && (forall|i: int|
            0 <= i < es.len() && eligible(#[trigger] es[i]) ==> names_of(pf.0).contains(es[i].name@)),
    decreases es.len(),
{
    if es.len() > 0 {
        let p = es.drop_last();
        law_size_folders(p);
        let pf = scan(ActionKind::BySize, p)->Ok_0;
        let e = es.last();
        if eligible(e) && !names_of(pf.0).contains(e.name@) {
            let q = pf.0.push(e);
            assert(names_of(q) =~= names_of(pf.0).push(e.name@));
            assert forall|i: int| 0 <= i < es.len() && eligible(#[trigger] es[i]) implies names_of(q).contains(es[i].name@) by {
                if i < es.len() - 1 {
                    assert(p[i] == es[i]);
                    let k = choose|k: int| 0 <= k < names_of(pf.0).len() && names_of(pf.0)[k] == es[i].name@;
                    assert(names_of(q)[k] == es[i].name@);
                } else {
                    assert(names_of(q)[pf.0.len() as int] == es[i].name@);
                }
            }
        } else {
            assert forall|i: int| 0 <= i < es.len() && eligible(#[trigger] es[i]) implies names_of(pf.0).contains(es[i].name@) by {
                if i < es.len() - 1 {
                    assert(p[i] == es[i]);
                }
            }
        }
    }
}

proof fn lemma_scan_err_extends(kind: ActionKind, es: Seq<Entry>, j: int)
    requires
        0 <= j <= es.len(),
        scan(kind, es.take(j)) is Err,
    ensures
        scan(kind, es) == scan(kind, es.take(j)),
    decreases es.len() - j,
{
    if j == es.len() {
        assert(es.take(j) =~= es);
    } else {
        assert(es.take(j + 1).drop_last() =~= es.take(j));
        lemma_scan_err_extends(kind, es, j + 1);
    }
}

fn ascii_uppercase(c: char) -> (r: char)
    ensures
        r == ascii_upper(c),
{
    if 'a' <= c && c <= 'z' {
        let u = (c as u8 - 32) as char;
        assert(code_char(c as int - 32) == u);
        u
    } else {
        c
    }
}

fn folder_for(kind: ActionKind, e: &Entry, ranges: &Vec<AlphaRange>) -> (r: Result<String, OrganizeError>)
    requires
        is_shallow(kind),
        kind matches ActionKind::ByName(n) ==> ranges_view(ranges@) == alpha_ranges(n as int),
    ensures
        match shallow_folder(kind, *e) {
            Ok(f) => r matches Ok(s) && s@ == f,
            Err(x) => r == Err::<String, OrganizeError>(x),
        },
{
    match kind {
        ActionKind::ByDate | ActionKind::ByModifiedDate => {
            let t = if kind == ActionKind::ByDate { e.created } else { e.modified };
            match t {
                None => Err(OrganizeError::MissingTimestamp),
                Some(t) => match date_folder_for(t) {
                    Some(f) => Ok(f),
                    None => Err(OrganizeError::TimestampOutOfRange),
                },
            }
        },
        ActionKind::ByName(_) => {
            let n = e.name.as_str().unicode_len();
            let c = if n > 0 { e.name.as_str().get_char(0) } else { '_' };
            Ok(find_range_for_char(ascii_uppercase(c), ranges))
        },
        ActionKind::BySize => Ok(size_bucket(e.len).folder_name()),
        _ => Ok(type_folder_for(&e.name)),
    }
}

fn organize_shallow(
    folder: &str,
    entries: &Vec<Entry>,
    occupied: &Vec<String>,
    kind: ActionKind,
    now: Timestamp,
) -> (r: Result<OrganizeAction, OrganizeError>)
    requires
        is_shallow(kind),
    ensures
        organized(folder@, kind, entries@, views(occupied@), now, r),
{
    let ranges = match kind {
        ActionKind::ByName(n) => create_alphabetical_ranges(n),
        _ => Vec::new(),
    };
    let mut sources: Vec<String> = Vec::new();
    let mut cands: Vec<String> = Vec::new();
    let mut names: Vec<String> = Vec::new();
    let ghost mut picked: Seq<Entry> = Seq::empty();
    let ghost mut fs: Seq<Seq<char>> = Seq::empty();
    let mut i: usize = 0;
    assert(entries@.take(0) =~= Seq::<Entry>::empty());
    while i < entries.len()
        invariant
            is_shallow(kind),
            kind matches ActionKind::ByName(n) ==> ranges_view(ranges@) == alpha_ranges(n as int),
            i <= entries@.len(),
            scan(kind, entries@.take(i as int)) == Ok::<(Seq<Entry>, Seq<Seq<char>>), OrganizeError>((picked, fs)),
            picked.len() == fs.len(),
            strings_view(sources@) == sources_of(folder@, picked),
            strings_view(cands@) == candidates_of(folder@, picked, fs),
            strings_view(names@) == names_of(picked),
            names_distinct(picked),
        decreases entries@.len() - i,
    {
        let e = &entries[i];
        assert(entries@.take(i + 1).drop_last() =~= entries@.take(i as int));
        assert(entries@.take(i + 1).last() == *e);
        let seen = contains_string(&names, &e.name);
        proof {
            assert(strings_view(names@).len() == names@.len());
            assert(names_of(picked).len() == picked.len());
            if seen {
                let k = choose|k: int| 0 <= k < names@.len() && (#[trigger] names@[k])@ == e.name@;
                assert(names_of(picked)[k] == e.name@);
            } else {
                assert forall|k: int| 0 <= k < picked.len() implies names_of(picked)[k] != e.name@ by {
                    assert(strings_view(names@)[k] == names@[k]@);
                }
            }
        }
        if is_eligible(e) && !seen {
            match folder_for(kind, e, &ranges) {
                Ok(f) => {
                    let src = join(folder, e.name.as_str());
                    let dir = join(folder, f.as_str());
                    let cand = join(dir.as_str(), e.name.as_str());
                    let ghost old_sources = sources@;
                    let ghost old_cands = cands@;
                    let ghost old_picked = picked;
                    let ghost old_fs = fs;
                    let ghost old_names = names@;
                    names.push(e.name.clone());
                    assert(strings_view(old_names).len() == old_names.len());
                    proof {
                        picked = picked.push(*e);
                        fs = fs.push(f@);
                    }
                    sources.push(src);
                    cands.push(cand);
                    assert(strings_view(old_sources).len() == old_picked.len());
                    assert(sources@.len() == picked.len());
                    assert(strings_view(sources@)[old_picked.len() as int] == src@);
                    assert(sources_of(folder@, picked)[old_picked.len() as int] == join_spec(folder@, e.name@));
                    assert(strings_view(old_cands).len() == old_picked.len());
                    assert(cands@.len() == picked.len());
                    assert(strings_view(cands@)[old_picked.len() as int] == cand@);
                    assert(candidates_of(folder@, picked, fs)[old_picked.len() as int] == join_spec(join_spec(folder@, f@), e.name@));
                    assert forall|k: int| 0 <= k < picked.len() implies strings_view(sources@)[k]
                        == sources_of(folder@, picked)[k] by {
                        if k < old_picked.len() {
                            assert(strings_view(old_sources)[k] == sources_of(folder@, old_picked)[k]);
                            assert(picked[k] == old_picked[k]);
                        }
                    }
                    assert(strings_view(sources@) =~= sources_of(folder@, picked));
                    assert forall|k: int| 0 <= k < picked.len() implies strings_view(cands@)[k]
                        == candidates_of(folder@, picked, fs)[k] by {
                        if k < old_picked.len() {
                            assert(strings_view(old_cands)[k] == candidates_of(folder@, old_picked, old_fs)[k]);
                            assert(picked[k] == old_picked[k]);
                            assert(fs[k] == old_fs[k]);
                        }
                    }
                    assert(strings_view(cands@) =~= candidates_of(folder@, picked, fs));
                    assert(strings_view(names@) =~= names_of(picked)) by {
                        assert forall|k: int| 0 <= k < picked.len() implies strings_view(names@)[k]
                            == names_of(picked)[k] by {
                            if k < old_picked.len() {
                                assert(strings_view(old_names)[k] == names_of(old_picked)[k]);
                                assert(picked[k] == old_picked[k]);
                            }
                        }
                    }
                    assert forall|a: int, b: int| 0 <= a < b < picked.len() implies (#[trigger] picked[a]).name@
                        != (#[trigger] picked[b]).name@ by {
                        if b < old_picked.len() {
                            assert(old_picked[a] == picked[a]);
                            assert(old_picked[b] == picked[b]);
                        } else {
                            assert(names_of(old_picked)[a] == picked[a].name@);
                        }
                    }
                },
                Err(x) => {
                    proof {
                        lemma_scan_err_extends(kind, entries@, i + 1);
                    }
                    return Err(x);
                },
            }
        }
        i += 1;
    }
    assert(entries@.take(i as int) =~= entries@);
    proof {
        lemma_views_to_set(sources@);
        assert forall|a: int, b: int| 0 <= a < b < sources@.len() implies (#[trigger] sources@[a])@
            != (#[trigger] sources@[b])@ by {
            assert(strings_view(sources@)[a] == sources@[a]@);
            assert(strings_view(sources@)[b] == sources@[b]@);
            if sources@[a]@ == sources@[b]@ {
                lemma_join_injective(folder@, picked[a].name@, picked[b].name@);
            }
        }
    }
    match plan_moves(&sources, &cands, occupied) {
        Ok(moves) => {
            let ghost base = views(occupied@) + sources_of(folder@, picked).to_set();
            let ghost ds = plan_spec(base, candidates_of(folder@, picked, fs))->Some_0;
            assert(strings_view(cands@) == candidates_of(folder@, picked, fs));
            proof {
                crate::moves::lemma_plan_len(base, candidates_of(folder@, picked, fs));
            }
            assert(moves_view(moves@) =~= Seq::new(
                picked.len(),
                |k: int| (sources_of(folder@, picked)[k], ds[k]),
            )) by {
                assert forall|k: int| 0 <= k < moves@.len() implies moves_view(moves@)[k] == (
                    sources_of(folder@, picked)[k],
                    ds[k],
                ) by {
                    assert(strings_view(sources@)[k] == sources@[k]@);
                }
            }
            Ok(OrganizeAction { timestamp: now, action_type: kind, moves })
        },
        Err(x) => Err(x),
    }
}

/// Moves each file directly inside `folder` that is not hidden into the
/// folder named after the category of its extension (`Others` where there is none or it is unknown), resolving name conflicts against `occupied`
/// (every path that exists) and the moves before it.
pub fn organize_by_type(
    folder: &str,
    entries: &Vec<Entry>,
    occupied: &Vec<String>,
    now: Timestamp,
) -> (r: Result<OrganizeAction, OrganizeError>)
    ensures
        organized(folder@, ActionKind::ByType, entries@, views(occupied@), now, r),
{
    organize_shallow(folder, entries, occupied, ActionKind::ByType, now)
}

/// Moves each file directly inside `folder` that is not hidden into the
/// folder named after `YYYY/YYYY-MM` of its creation time (UTC), resolving name conflicts against `occupied`
/// (every path that exists) and the moves before it.
pub fn organize_by_date(
    folder: &str,
    entries: &Vec<Entry>,
    occupied: &Vec<String>,
    now: Timestamp,
) -> (r: Result<OrganizeAction, OrganizeError>)
    ensures
        organized(folder@, ActionKind::ByDate, entries@, views(occupied@), now, r),
{
    organize_shallow(folder, entries, occupied, ActionKind::ByDate, now)
}

/// Moves each file directly inside `folder` that is not hidden into the
/// folder named after `YYYY/YYYY-MM` of its modification time (UTC), resolving name conflicts against `occupied`
/// (every path that exists) and the moves before it.
pub fn organize_by_modified_date(
    folder: &str,
    entries: &Vec<Entry>,
    occupied: &Vec<String>,
    now: Timestamp,
) -> (r: Result<OrganizeAction, OrganizeError>)
    ensures
        organized(folder@, ActionKind::ByModifiedDate, entries@, views(occupied@), now, r),
{
    organize_shallow(folder, entries, occupied, ActionKind::ByModifiedDate, now)
}

/// Moves each file directly inside `folder` that is not hidden into the
/// folder named after the class of its length, resolving name conflicts against `occupied`
/// (every path that exists) and the moves before it.
pub fn organize_by_size(
    folder: &str,
    entries: &Vec<Entry>,
    occupied: &Vec<String>,
    now: Timestamp,
) -> (r: Result<OrganizeAction, OrganizeError>)
    ensures
        organized(folder@, ActionKind::BySize, entries@, views(occupied@), now, r),
{
    organize_shallow(folder, entries, occupied, ActionKind::BySize, now)
}

/// Moves each file directly inside `folder` that is not hidden into the
/// folder of the range of letters that holds the upper-cased first character
/// of its name (`Other` where none does), with the alphabet cut into
/// `num_ranges` ranges; name conflicts are resolved against `occupied` and
/// the moves before.
pub fn organize_by_name(
    folder: &str,
    entries: &Vec<Entry>,
    occupied: &Vec<String>,
    num_ranges: usize,
    now: Timestamp,
) -> (r: Result<OrganizeAction, OrganizeError>)
    requires
        1 <= num_ranges,
    ensures
        organized(folder@, ActionKind::ByName(num_ranges), entries@, views(occupied@), now, r),
{
    organize_shallow(folder, entries, occupied, ActionKind::ByName(num_ranges), now)
}

} // verus!
