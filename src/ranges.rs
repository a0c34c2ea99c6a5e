//! The alphabet cut into contiguous ranges of letters, for grouping by name.
use vstd::prelude::*;
use crate::text::push_char;

verus! {

/// One range of letters and the folder that holds the names starting in it.
#[derive(Debug, Clone)]
pub struct AlphaRange {
    pub start: char,
    pub end: char,
    pub label: String,
}

impl View for AlphaRange {
    type V = (char, char, Seq<char>);

    open spec fn view(&self) -> (char, char, Seq<char>) {
        (self.start, self.end, self.label@)
    }
}

/// The character with code `x`.
pub open spec fn code_char(x: int) -> char {
    (x as u32) as char
}

/// The ranges of letters for a count of `n`, each with its folder name.
pub open spec fn alpha_ranges(n: int) -> Seq<(char, char, Seq<char>)> {
    Seq::new(
        n as nat,
        |i: int|
            {
                let s = code_char(range_start(n, i));
                let e = code_char(range_end(n, i));
                (s, e, range_label(s, e))
            },
    )
}

/// The ranges of `v`, each as its letters and folder name.
pub open spec fn ranges_view(v: Seq<AlphaRange>) -> Seq<(char, char, Seq<char>)> {
    v.map_values(|a: AlphaRange| a@)
}

/// Letters in each range but the last, when the alphabet is cut into `n`.
pub open spec fn letters_per_range(n: int) -> int {
    26int / n
}

/// Code of the first letter of range `i` out of `n`.
pub open spec fn range_start(n: int, i: int) -> int {
    65 + i * letters_per_range(n)
}

/// Code of the last letter of range `i` out of `n`; the last range runs to `Z`.
pub open spec fn range_end(n: int, i: int) -> int {
    if i == n - 1 {
        90
    } else {
        65 + (i + 1) * letters_per_range(n) - 1
    }
}

/// The folder name of a range: its one letter, or `first-last`.
pub open spec fn range_label(start: char, end: char) -> Seq<char> {
    if start == end {
        seq![start]
    } else {
        seq![start, '-', end]
    }
}

/// Whether `c` is the code of a letter from `A` to `Z`.
pub open spec fn is_letter(c: int) -> bool {
    65 <= c <= 90
}

/// Whether letter code `c` falls in range `i` out of `n`.
pub open spec fn in_range(n: int, i: int, c: int) -> bool {
    0 <= i < n && range_start(n, i) <= c <= range_end(n, i)
}

/// For any count `n` of 1 or more the ranges follow one another without gap
/// or overlap from `A` to `Z`: all but the last hold `26 / n` letters, the
/// last also holds the `26 % n` left over, every letter falls in exactly one
/// range and no other character falls in any. Up to 26 ranges none is
/// empty; beyond that all but the last are empty and the last is `A-Z`.
pub proof fn law_ranges_partition(n: int)
    requires
        1 <= n,
    ensures
        range_start(n, 0) == 65,
        range_end(n, n - 1) == 90,
        forall|i: int| 0 <= i < n ==> range_start(n, i) <= #[trigger] range_end(n, i) + 1,
        n <= 26 ==> forall|i: int| 0 <= i < n ==> range_start(n, i) <= #[trigger] range_end(n, i),
        forall|i: int| 0 <= i < n - 1 ==> #[trigger] range_end(n, i) + 1 == range_start(n, i + 1),
        forall|i: int|
            0 <= i < n - 1 ==> #[trigger] range_end(n, i) - range_start(n, i) + 1 == 26int / n,
        range_end(n, n - 1) - range_start(n, n - 1) + 1 == 26int / n + 26int % n,
        forall|c: int| #[trigger] is_letter(c) ==> exists|i: int| #[trigger] in_range(n, i, c),
        forall|i: int, c: int| #[trigger] in_range(n, i, c) ==> is_letter(c),
        forall|i: int, j: int, c: int|
            #[trigger] in_range(n, i, c) && #[trigger] in_range(n, j, c) ==> i == j,
{
    if n <= 26 {
        lemma_partition_small(n);
    } else {
        let per = letters_per_range(n);
        assert(per == 0 && 26int % n == 26) by (nonlinear_arith)
            requires per == 26int / n, n > 26;
        assert forall|i: int| 0 <= i < n implies range_start(n, i) <= #[trigger] range_end(n, i) + 1 by {
            assert(i * per == 0) by (nonlinear_arith) requires per == 0;
            assert((i + 1) * per == 0) by (nonlinear_arith) requires per == 0;
        }
        assert forall|i: int| 0 <= i < n - 1 implies #[trigger] range_end(n, i) + 1 == range_start(n, i + 1) by {
            assert((i + 1) * per == 0) by (nonlinear_arith) requires per == 0;
        }
        assert forall|i: int| 0 <= i < n - 1 implies #[trigger] range_end(n, i) - range_start(n, i) + 1 == 26int / n by {
            assert(i * per == 0) by (nonlinear_arith) requires per == 0;
            assert((i + 1) * per == 0) by (nonlinear_arith) requires per == 0;
        }
        assert((n - 1) * per == 0) by (nonlinear_arith) requires per == 0;
        assert(0 * per == 0);
        assert forall|c: int| #[trigger] is_letter(c) implies exists|i: int| #[trigger] in_range(n, i, c) by {
            assert(in_range(n, n - 1, c));
        }
        assert forall|i: int, c: int| #[trigger] in_range(n, i, c) implies i == n - 1 && is_letter(c) by {
            assert(i * per == 0) by (nonlinear_arith) requires per == 0;
            assert((i + 1) * per == 0) by (nonlinear_arith) requires per == 0;
        }
    }
}

proof fn lemma_partition_small(n: int)
    requires
        1 <= n <= 26,
    ensures
        range_start(n, 0) == 65,
        range_end(n, n - 1) == 90,
        forall|i: int| 0 <= i < n ==> range_start(n, i) <= #[trigger] range_end(n, i),
        forall|i: int| 0 <= i < n - 1 ==> #[trigger] range_end(n, i) + 1 == range_start(n, i + 1),
        forall|i: int|
            0 <= i < n - 1 ==> #[trigger] range_end(n, i) - range_start(n, i) + 1 == 26int / n,
        range_end(n, n - 1) - range_start(n, n - 1) + 1 == 26int / n + 26int % n,
        forall|c: int| #[trigger] is_letter(c) ==> exists|i: int| #[trigger] in_range(n, i, c),
        forall|i: int, c: int| #[trigger] in_range(n, i, c) ==> is_letter(c),
        forall|i: int, j: int, c: int|
            #[trigger] in_range(n, i, c) && #[trigger] in_range(n, j, c) ==> i == j,
{
    let per = letters_per_range(n);
    assert(per >= 1) by (nonlinear_arith)
        requires per == 26int / n, 1 <= n <= 26;
    assert(n * per <= 26 && 26 - n * per == 26int % n) by (nonlinear_arith)
        requires per == 26int / n, 1 <= n <= 26;
    assert forall|i: int| 0 <= i < n implies range_start(n, i) <= #[trigger] range_end(n, i) by {
        if i < n - 1 {
            assert((i + 1) * per == i * per + per) by (nonlinear_arith);
        } else {
            assert(i * per <= 26 - per) by (nonlinear_arith)
                requires i == n - 1, n * per <= 26;
        }
    }
    assert forall|i: int| 0 <= i < n - 1 implies #[trigger] range_end(n, i) + 1 == range_start(n, i + 1) by {
    }
    assert forall|i: int| 0 <= i < n - 1 implies #[trigger] range_end(n, i) - range_start(n, i) + 1 == 26int / n by {
        assert((i + 1) * per == i * per + per) by (nonlinear_arith);
    }
    assert((n - 1) * per == n * per - per) by (nonlinear_arith);
    // starts grow with the index
    assert forall|i: int, j: int| 0 <= i < j < n implies #[trigger] range_start(n, i) + per <= #[trigger] range_start(n, j) by {
        assert(i * per + per <= j * per) by (nonlinear_arith)
            requires i < j, per >= 1;
    }
    assert forall|c: int| #[trigger] is_letter(c) implies exists|i: int| #[trigger] in_range(n, i, c) by {
        let q = (c - 65) / per;
        assert(0 <= q && q * per <= c - 65 && c - 65 < (q + 1) * per) by (nonlinear_arith)
            requires q == (c - 65) / per, per >= 1, 65 <= c;
        if q < n - 1 {
            assert((q + 1) * per == q * per + per) by (nonlinear_arith);
            assert(in_range(n, q, c));
        } else {
            assert((n - 1) * per <= q * per) by (nonlinear_arith)
                requires n - 1 <= q, per >= 1;
            assert(in_range(n, n - 1, c));
        }
    }
    assert forall|i: int, j: int, c: int|
        #[trigger] in_range(n, i, c) && #[trigger] in_range(n, j, c) implies i == j by {
        if i < j {
            assert(range_start(n, i + 1) <= range_start(n, j)) by {
                if i + 1 < j {
                    assert(range_start(n, i + 1) + per <= range_start(n, j));
                }
            }
        } else if j < i {
            assert(range_start(n, j + 1) <= range_start(n, i)) by {
                if j + 1 < i {
                    assert(range_start(n, j + 1) + per <= range_start(n, i));
                }
            }
        }
    }
    assert forall|i: int, c: int| #[trigger] in_range(n, i, c) implies is_letter(c) by {
        if i > 0 {
            assert(range_start(n, 0) + per <= range_start(n, i));
        }
        if i < n - 1 {
            assert(range_end(n, i) + 1 == range_start(n, i + 1));
            if i + 1 < n - 1 {
                assert(range_start(n, i + 1) + per <= range_start(n, n - 1));
            }
        }
    }
}

/// The alphabet cut into `num_ranges` ranges of `26 / num_ranges` letters,
/// the last one running to `Z`; beyond 26 ranges all but the last are empty.
pub fn create_alphabetical_ranges(num_ranges: usize) -> (r: Vec<AlphaRange>)
    requires
        1 <= num_ranges,
    ensures
        ranges_view(r@) == alpha_ranges(num_ranges as int),
{
    let per: usize = 26 / num_ranges;
    let mut ranges: Vec<AlphaRange> = Vec::new();
    let mut i: usize = 0;
    proof {
        assert(num_ranges * per <= 26) by (nonlinear_arith)
            requires per == 26usize / num_ranges, 1 <= num_ranges;
    }
    while i < num_ranges
        invariant
            1 <= num_ranges,
            per == 26usize / num_ranges,
            num_ranges * per <= 26,
            i <= num_ranges,
            ranges@.len() == i,
            forall|k: int|
                0 <= k < i ==> {
                    &&& (#[trigger] ranges@[k]).start as int == range_start(num_ranges as int, k)
                    &&& ranges@[k].end as int == range_end(num_ranges as int, k)
                    &&& ranges@[k]@ == alpha_ranges(num_ranges as int)[k]
                },
        decreases num_ranges - i,
    {
        assert((i + 1) * per <= num_ranges * per) by (nonlinear_arith)
            requires i < num_ranges;
        assert((i + 1) * per == i * per + per) by (nonlinear_arith);
        let start_code: u8 = (i * per) as u8 + 65u8;
        let start = start_code as char;
        let end = if i == num_ranges - 1 {
            'Z'
        } else {
            // one before the next range's first letter; `@` where a range is empty
            (((i + 1) * per) as u8 + 64u8) as char
        };
        let mut label = String::new();
        push_char(&mut label, start);
        if start != end {
            push_char(&mut label, '-');
            push_char(&mut label, end);
        }
        assert(label@ =~= range_label(start, end));
        assert(code_char(start as int) == start);
        assert(code_char(end as int) == end);
        ranges.push(AlphaRange { start, end, label });
        i += 1;
    }
    assert(ranges_view(ranges@) =~= alpha_ranges(num_ranges as int));
    ranges
}

/// The label of the first of `ranges` that holds `ch`, or `Other`.
pub open spec fn label_for(ch: char, ranges: Seq<(char, char, Seq<char>)>) -> Seq<char>
    decreases ranges.len(),
{
    if ranges.len() == 0 {
        "Other"@
    } else if ranges[0].0 <= ch <= ranges[0].1 {
        ranges[0].2
    } else {
        label_for(ch, ranges.drop_first())
    }
}

/// The folder for a name starting with `ch`: the label of the first range
/// that holds it, or `Other`.
pub fn find_range_for_char(ch: char, ranges: &Vec<AlphaRange>) -> (r: String)
    ensures
        r@ == label_for(ch, ranges_view(ranges@)),
{
    let ghost rv = ranges_view(ranges@);
    let mut i: usize = 0;
    assert(rv.subrange(0, rv.len() as int) =~= rv);
    while i < ranges.len()
        invariant
            rv == ranges_view(ranges@),
            i <= ranges@.len(),
            label_for(ch, rv) == label_for(ch, rv.subrange(i as int, rv.len() as int)),
        decreases ranges@.len() - i,
    {
        let ghost rest = rv.subrange(i as int, rv.len() as int);
        if ranges[i].start <= ch && ch <= ranges[i].end {
            return ranges[i].label.clone();
        }
        assert(rest.drop_first() =~= rv.subrange(i + 1, rv.len() as int));
        i += 1;
    }
    String::from_str("Other")
}

} // verus!
