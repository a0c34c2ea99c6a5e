//! Operations as units of history, and the bounded log that keeps them.
use vstd::prelude::*;
use crate::dates::Timestamp;
use crate::moves::FileMove;
use crate::text::{chars_of, decimal, decimal_of};

verus! {

/// How many operations the log keeps.
pub const HISTORY_DEPTH: usize = 10;

/// The operation that produced a batch of moves.
#[derive(Debug, Clone, Copy, PartialEq, Eq, Structural)]
pub enum ActionKind {
    ByType,
    ByDate,
    ByModifiedDate,
    /// Grouping by name into this many ranges of letters.
    ByName(usize),
    BySize,
    Flatten,
    RemoveDuplicates,
}

/// The tag under which an operation is recorded.
pub open spec fn kind_tag(k: ActionKind) -> Seq<char> {
    match k {
        ActionKind::ByType => "by_type"@,
        ActionKind::ByDate => "by_date"@,
        ActionKind::ByModifiedDate => "by_modified_date"@,
        ActionKind::ByName(n) => "by_name_"@ + decimal_of(n as nat),
        ActionKind::BySize => "by_size"@,
        ActionKind::Flatten => "flatten"@,
        ActionKind::RemoveDuplicates => "remove_duplicates"@,
    }
}

proof fn lemma_fixed_tags_distinct(k: ActionKind)
    requires
        !(k is ByName),
    ensures
        kind_tag(k) == kind_tag(ActionKind::ByType) ==> k == ActionKind::ByType,
        kind_tag(k) == kind_tag(ActionKind::ByDate) ==> k == ActionKind::ByDate,
        kind_tag(k) == kind_tag(ActionKind::ByModifiedDate) ==> k == ActionKind::ByModifiedDate,
        kind_tag(k) == kind_tag(ActionKind::BySize) ==> k == ActionKind::BySize,
        kind_tag(k) == kind_tag(ActionKind::Flatten) ==> k == ActionKind::Flatten,
        kind_tag(k) == kind_tag(ActionKind::RemoveDuplicates) ==> k == ActionKind::RemoveDuplicates,
        forall|n: usize| kind_tag(k) != #[trigger] kind_tag(ActionKind::ByName(n)),
{
    reveal_strlit("by_type");
    reveal_strlit("by_date");
    reveal_strlit("by_modified_date");
    reveal_strlit("by_size");
    reveal_strlit("flatten");
    reveal_strlit("remove_duplicates");
    assert("by_type"@[3] != "by_date"@[3]);
    assert("by_type"@[3] != "by_size"@[3]);
    assert("by_date"@[3] != "by_size"@[3]);
    assert("by_type"@[0] != "flatten"@[0]);
    assert("by_date"@[0] != "flatten"@[0]);
    assert("by_size"@[0] != "flatten"@[0]);
    assert("by_modified_date"@.len() == 16);
    assert("remove_duplicates"@.len() == 17);
    assert("by_type"@.len() == 7);
    assert("by_date"@.len() == 7);
    assert("by_size"@.len() == 7);
    assert("flatten"@.len() == 7);
    reveal_strlit("by_name_");
    assert forall|n: usize| kind_tag(k) != #[trigger] kind_tag(ActionKind::ByName(n)) by {
        lemma_decimal_digits(n as nat);
        let t = kind_tag(ActionKind::ByName(n));
        assert(t[3] == 'n');
        assert(t[0] == 'b');
    }
}

/// The number that a string of decimal digits spells.
pub open spec fn digits_value(s: Seq<char>) -> int
    decreases s.len(),
{
    if s.len() == 0 {
        0
    } else {
        digits_value(s.drop_last()) * 10 + (s.last() as int - 48)
    }
}

/// Whether every character is a decimal digit.
pub open spec fn all_digits(s: Seq<char>) -> bool {
    forall|i: int| 0 <= i < s.len() ==> '0' <= #[trigger] s[i] <= '9'
}

proof fn lemma_decimal_digits(n: nat)
    ensures
        all_digits(decimal_of(n)),
        digits_value(decimal_of(n)) == n,
        decimal_of(n).len() >= 1,
    decreases n,
{
    if n >= 10 {
        lemma_decimal_digits(n / 10);
        let s = decimal_of(n);
        assert(s.drop_last() =~= decimal_of(n / 10));
        assert(s.last() as int == (n % 10) + 48);
        assert(n == (n / 10) * 10 + n % 10);
        assert(digits_value(s) == digits_value(s.drop_last()) * 10 + (s.last() as int - 48));
        assert(digits_value(s.drop_last()) == n / 10);
        assert forall|i: int| 0 <= i < s.len() implies '0' <= #[trigger] s[i] <= '9' by {
            if i < s.len() - 1 {
                assert(s[i] == decimal_of(n / 10)[i]);
            }
        }
    } else {
        assert(decimal_of(n).drop_last() =~= Seq::<char>::empty());
        assert(decimal_of(n).last() as int == n + 48);
        assert(digits_value(decimal_of(n).drop_last()) == 0);
    }
}

proof fn lemma_digits_prefix(s: Seq<char>, j: int)
    requires
        all_digits(s),
        0 <= j <= s.len(),
    ensures
        0 <= digits_value(s.take(j)) <= digits_value(s),
    decreases s.len(),
{
    if s.len() > 0 {
        if j == s.len() {
            assert(s.take(j) =~= s);
            lemma_digits_prefix(s.drop_last(), s.len() - 1);
            assert(s.drop_last().take(s.len() - 1) =~= s.drop_last());
        } else {
            lemma_digits_prefix(s.drop_last(), j);
            assert(s.drop_last().take(j) =~= s.take(j));
            lemma_digits_prefix(s.drop_last(), s.len() - 1);
            assert(s.drop_last().take(s.len() - 1) =~= s.drop_last());
        }
    } else {
        assert(s.take(j) =~= s);
    }
}

impl ActionKind {
    /// The tag under which this operation is recorded.
    pub fn tag(&self) -> (r: String)
        ensures
            r@ == kind_tag(*self),
    {
        match self {
            ActionKind::ByType => String::from_str("by_type"),
            ActionKind::ByDate => String::from_str("by_date"),
            ActionKind::ByModifiedDate => String::from_str("by_modified_date"),
            ActionKind::ByName(n) => {
                let mut s = String::from_str("by_name_");
                let d = decimal(*n as u64);
                s.append(d.as_str());
                s
            },
            ActionKind::BySize => String::from_str("by_size"),
            ActionKind::Flatten => String::from_str("flatten"),
            ActionKind::RemoveDuplicates => String::from_str("remove_duplicates"),
        }
    }

    /// The operation recorded under `tag`, if any.
    pub fn from_tag(tag: &String) -> (r: Option<ActionKind>)
        ensures
            r matches Some(k) ==> kind_tag(k) == tag@,
            tag@ == kind_tag(ActionKind::ByType) ==> r == Some(ActionKind::ByType),
            tag@ == kind_tag(ActionKind::ByDate) ==> r == Some(ActionKind::ByDate),
            tag@ == kind_tag(ActionKind::ByModifiedDate) ==> r == Some(ActionKind::ByModifiedDate),
            tag@ == kind_tag(ActionKind::BySize) ==> r == Some(ActionKind::BySize),
            tag@ == kind_tag(ActionKind::Flatten) ==> r == Some(ActionKind::Flatten),
            tag@ == kind_tag(ActionKind::RemoveDuplicates) ==> r == Some(
                ActionKind::RemoveDuplicates,
            ),
            forall|n: usize| tag@ == #[trigger] kind_tag(ActionKind::ByName(n)) ==> r == Some(
                ActionKind::ByName(n),
            ),
    {
        let fixed = [
            ActionKind::ByType,
            ActionKind::ByDate,
            ActionKind::ByModifiedDate,
            ActionKind::BySize,
            ActionKind::Flatten,
            ActionKind::RemoveDuplicates,
        ];
        let mut i: usize = 0;
        while i < 6
            invariant
                i <= 6,
                fixed@ == seq![
                    ActionKind::ByType,
                    ActionKind::ByDate,
                    ActionKind::ByModifiedDate,
                    ActionKind::BySize,
                    ActionKind::Flatten,
                    ActionKind::RemoveDuplicates,
                ],
                forall|k: int| 0 <= k < i ==> kind_tag(#[trigger] fixed@[k]) != tag@,
            decreases 6 - i,
        {
            let k = fixed[i];
            if k.tag() == *tag {
                proof {
                    lemma_fixed_tags_distinct(k);
                }
                return Some(k);
            }
            i += 1;
        }
        assert(kind_tag(fixed@[0]) != tag@);
        assert(kind_tag(fixed@[1]) != tag@);
        assert(kind_tag(fixed@[2]) != tag@);
        assert(kind_tag(fixed@[3]) != tag@);
        assert(kind_tag(fixed@[4]) != tag@);
        assert(kind_tag(fixed@[5]) != tag@);
        // the remaining form: `by_name_` and a count
        proof {
            reveal_strlit("by_name_");
            assert forall|m: usize| tag@ == #[trigger] kind_tag(ActionKind::ByName(m)) implies tag@.len() >= 9 by {
                lemma_decimal_digits(m as nat);
            }
        }
        let cs = chars_of(tag.as_str());
        if cs.len() <= 8 {
            return None;
        }
        proof {
            assert forall|m: usize| tag@ == #[trigger] kind_tag(ActionKind::ByName(m)) implies {
                &&& all_digits(cs@.subrange(8, cs@.len() as int))
                &&& digits_value(cs@.subrange(8, cs@.len() as int)) == m
            } by {
                lemma_decimal_digits(m as nat);
                assert(cs@.subrange(8, cs@.len() as int) =~= decimal_of(m as nat));
            }
        }
        match parse_count(&cs, 8) {
            Some(n) => {
                let k = ActionKind::ByName(n);
                if k.tag() == *tag {
                    Some(k)
                } else {
                    None
                }
            },
            None => None,
        }
    }
}

/// The number spelled by `cs[from..]`, where it is all digits and fits.
fn parse_count(cs: &Vec<char>, from: usize) -> (r: Option<usize>)
    requires
        from <= cs@.len(),
    ensures
        r matches Some(n) ==> n as int == digits_value(cs@.subrange(from as int, cs@.len() as int)),
        all_digits(cs@.subrange(from as int, cs@.len() as int)) && digits_value(
            cs@.subrange(from as int, cs@.len() as int),
        ) <= usize::MAX ==> r is Some,
{
    let ghost ds = cs@.subrange(from as int, cs@.len() as int);
    let mut n: usize = 0;
    let mut j: usize = from;
    assert(ds.take(0) =~= Seq::<char>::empty());
    while j < cs.len()
        invariant
            ds == cs@.subrange(from as int, cs@.len() as int),
            from <= j <= cs@.len(),
            n as int == digits_value(ds.take(j - from)),
        decreases cs@.len() - j,
    {
        let c = cs[j];
        assert(ds[j - from] == c);
        if c < '0' || c > '9' {
            return None;
        }
        let d = (c as u32 - 48) as usize;
        assert(ds.take(j + 1 - from).drop_last() =~= ds.take(j - from));
        assert(ds.take(j + 1 - from).last() == c);
        proof {
            if all_digits(ds) && digits_value(ds) <= usize::MAX {
                lemma_digits_prefix(ds, j + 1 - from);
                assert(n <= (usize::MAX - d) / 10) by (nonlinear_arith)
                    requires n * 10 + d <= usize::MAX, d <= 9;
            }
        }
        if n > (usize::MAX - d) / 10 {
            return None;
        }
        assert(n * 10 + d <= usize::MAX) by (nonlinear_arith)
            requires n <= (usize::MAX - d) / 10, d <= 9;
        n = n * 10 + d;
        j += 1;
    }
    assert(ds.take(j - from) =~= ds);
    Some(n)
}

/// One run of an operation: when it ran, what it was, and the moves it made
/// in the order it made them.
#[derive(Debug, Clone)]
pub struct OrganizeAction {
    pub timestamp: Timestamp,
    pub action_type: ActionKind,
    pub moves: Vec<FileMove>,
}

/// The most recent `HISTORY_DEPTH` entries of `s`.
pub open spec fn retain_recent<A>(s: Seq<A>) -> Seq<A> {
    if s.len() > HISTORY_DEPTH {
        s.subrange(s.len() - HISTORY_DEPTH, s.len() as int)
    } else {
        s
    }
}

/// The log after each of `acts` was appended in turn.
pub open spec fn append_all<A>(log: Seq<A>, acts: Seq<A>) -> Seq<A>
    decreases acts.len(),
{
    if acts.len() == 0 {
        log
    } else {
        retain_recent(append_all(log, acts.drop_last()).push(acts.last()))
    }
}

/// Appends `action` to the history and keeps only the most recent ten
/// entries, oldest first.
pub fn log_action(actions: &mut Vec<OrganizeAction>, action: OrganizeAction)
    ensures
        final(actions)@ == retain_recent(old(actions)@.push(action)),
{
    actions.push(action);
    let ghost all = actions@;
    let ghost excess: int = if all.len() > HISTORY_DEPTH { all.len() - HISTORY_DEPTH } else { 0 };
    assert(actions@ =~= all.subrange(0, all.len() as int));
    while actions.len() > HISTORY_DEPTH
        invariant
            all.len() >= HISTORY_DEPTH ==> actions@.len() >= HISTORY_DEPTH,
            excess == if all.len() > HISTORY_DEPTH { all.len() - HISTORY_DEPTH } else { 0 },
            exists|d: int| 0 <= d <= excess && actions@ == all.subrange(d, all.len() as int),
        decreases actions@.len(),
    {
        let ghost d = choose|d: int| 0 <= d <= excess && actions@ == all.subrange(d, all.len() as int);
        actions.remove(0);
        assert(actions@ =~= all.subrange(d + 1, all.len() as int));
    }
    let ghost d = choose|d: int| 0 <= d <= excess && actions@ == all.subrange(d, all.len() as int);
    proof {
        if all.len() > HISTORY_DEPTH {
            assert(d == excess);
        } else {
            assert(actions@ =~= all);
        }
    }
}

/// A log that holds at most ten entries, after any number of further
/// appends, holds the most recent ten of all its entries, oldest first (all
/// of them while there are no more than ten).
pub proof fn law_history_keeps_recent<A>(log: Seq<A>, acts: Seq<A>)
    requires
        log.len() <= HISTORY_DEPTH,
    ensures
        append_all(log, acts) == retain_recent(log + acts),
    decreases acts.len(),
{
    if acts.len() > 0 {
        law_history_keeps_recent(log, acts.drop_last());
        let t = log + acts;
        assert(log + acts.drop_last() =~= t.drop_last());
        let prev = retain_recent(t.drop_last());
        if t.drop_last().len() > HISTORY_DEPTH {
            assert(prev.push(acts.last()) =~= t.subrange(t.len() - 1 - HISTORY_DEPTH, t.len() as int));
        } else {
            assert(prev.push(acts.last()) =~= t);
        }
        assert(retain_recent(prev.push(acts.last())) =~= retain_recent(t));
    }
}

} // verus!
