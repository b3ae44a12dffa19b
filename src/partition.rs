//! Splitting the merged suffix array into contiguous, independently mergeable
//! index ranges of every partial suffix table.

use vstd::prelude::*;
use crate::order::{
    is_lower_bound, is_suffix_table, lemma_lex_chain, lemma_lex_trichotomy,
    lemma_lower_bound_monotone, lex_le, lex_lt, locate, suffix_at,
};

verus! {

/// The index ranges of one partition: `starts[j]..ends[j]` in table `j`.
pub struct Partition {
    pub starts: Vec<usize>,
    pub ends: Vec<usize>,
}

/// Every table is a suffix table of the text beside it.
pub open spec fn tables_well_formed(texts: Seq<Vec<u8>>, tables: Seq<Vec<u64>>) -> bool {
    &&& texts.len() == tables.len()
    &&& forall|j: int| 0 <= j < tables.len() ==> is_suffix_table(#[trigger] texts[j]@, tables[j]@)
}

/// Index `i` of the cut after partition `i` in table 0, before clamping:
/// `(len0 + T) / T * (i + 1)`.
pub open spec fn cut_point(len0: nat, num_threads: nat, i: nat) -> nat {
    ((len0 + num_threads) / num_threads) * (i + 1)
}

/// `plan` cuts each table `j` of `tables` into `num_threads` consecutive
/// ranges: the first starts at 0, each starts where the one before ends, none
/// runs backwards, and the last ends at the table's length.
pub open spec fn is_plan(tables: Seq<Vec<u64>>, num_threads: nat, plan: Seq<Partition>) -> bool {
    &&& plan.len() == num_threads
    &&& forall|i: int|
        0 <= i < plan.len() ==> (#[trigger] plan[i]).starts@.len() == tables.len()
            && plan[i].ends@.len() == tables.len()
    &&& forall|j: int| 0 <= j < tables.len() ==> #[trigger] plan[0].starts@[j] == 0
    &&& forall|j: int|
        0 <= j < tables.len() ==> #[trigger] plan[num_threads - 1].ends@[j] == tables[j]@.len()
    &&& forall|i: int, j: int|
        0 <= i < plan.len() - 1 && 0 <= j < tables.len() ==> #[trigger] plan[i].ends@[j]
            == plan[i + 1].starts@[j]
    &&& forall|i: int, j: int|
        0 <= i < plan.len() && 0 <= j < tables.len() ==> #[trigger] plan[i].starts@[j]
            <= plan[i].ends@[j]
}

/// Cutting every table `j` at `ends[j]` splits the suffixes cleanly: each one
/// before a cut sorts at or before each one after a cut, across all tables.
pub open spec fn separates(texts: Seq<Vec<u8>>, tables: Seq<Vec<u64>>, ends: Seq<usize>) -> bool {
    forall|j: int, k: int, a: int, b: int|
        0 <= j < tables.len() && 0 <= k < tables.len() && 0 <= a < ends[j] && ends[k] <= b
            < tables[k]@.len() ==> lex_le(
            #[trigger] suffix_at(texts[j]@, tables[j]@, a),
            #[trigger] suffix_at(texts[k]@, tables[k]@, b),
        )
}

/// The ends of partition `i < T - 1`: where the cut falls inside table 0,
/// table 0 ends at the cut and every other table at the insertion point of
/// the pivot, the suffix at the cut; otherwise every table ends at its end.
pub open spec fn planned_ends(
    texts: Seq<Vec<u8>>,
    tables: Seq<Vec<u64>>,
    num_threads: nat,
    i: nat,
    ends: Seq<usize>,
) -> bool {
    let c = cut_point(tables[0]@.len(), num_threads, i);
    &&& ends.len() == tables.len()
    &&& c < tables[0]@.len() ==> ends[0] == c && forall|j: int|
        1 <= j < tables.len() ==> is_lower_bound(
            texts[j]@,
            tables[j]@,
            suffix_at(texts[0]@, tables[0]@, c as int),
            #[trigger] ends[j] as int,
        )
    &&& c >= tables[0]@.len() ==> forall|j: int|
        0 <= j < tables.len() ==> #[trigger] ends[j] == tables[j]@.len()
}

/// The cut in table 0 after partition `i` of `num_threads`.
pub fn cut_point_of(len0: usize, num_threads: usize, i: usize) -> (r: usize)
    requires
        num_threads >= 1,
        i < num_threads,
        len0 + num_threads <= usize::MAX,
    ensures
        r == cut_point(len0 as nat, num_threads as nat, i as nat),
{
    let q = (len0 + num_threads) / num_threads;
    assert(q * (i + 1) <= q * num_threads) by (nonlinear_arith)
        requires
            i < num_threads,
    ;
    assert(q * num_threads <= len0 + num_threads) by (nonlinear_arith)
        requires
            q as int == (len0 as int + num_threads as int) / (num_threads as int),
            num_threads >= 1,
    ;
    q * (i + 1)
}

proof fn lemma_cut_increasing(len0: nat, num_threads: nat, i: nat)
    requires
        num_threads >= 1,
    ensures
        cut_point(len0, num_threads, i) < cut_point(len0, num_threads, i + 1),
{
    let q = (len0 + num_threads) / num_threads;
    assert(q >= 1) by (nonlinear_arith)
        requires
            q == (len0 + num_threads) / num_threads,
            num_threads >= 1,
    ;
    assert(q * (i + 1) < q * (i + 2)) by (nonlinear_arith)
        requires
            q >= 1,
    ;
}

/// Picks `num_threads` ranges of every table that together form consecutive
/// slices of the merged order. Partition `i < T - 1` ends, in table 0, at
/// `cut_point(len0, T, i)`; its suffix there is the pivot, and every other
/// table ends at the pivot's insertion point. A cut at or past the end of
/// table 0 ends every table. The last partition takes the rest.
pub fn plan_partitions(texts: &Vec<Vec<u8>>, tables: &Vec<Vec<u64>>, num_threads: usize) -> (r:
    Vec<Partition>)
    requires
        tables_well_formed(texts@, tables@),
        tables@.len() >= 1,
        num_threads >= 1,
        tables@[0]@.len() + num_threads <= usize::MAX,
    ensures
        is_plan(tables@, num_threads as nat, r@),
        forall|i: int| 0 <= i < r@.len() ==> separates(texts@, tables@, (#[trigger] r@[i]).ends@),
        forall|i: int|
            0 <= i < num_threads - 1 ==> planned_ends(
                texts@,
                tables@,
                num_threads as nat,
                i as nat,
                (#[trigger] r@[i]).ends@,
            ),
{
    let n = tables.len();
    let len0 = tables[0].len();
    let mut starts: Vec<usize> = Vec::new();
    let mut j: usize = 0;
    while j < n
        invariant
            j <= n,
            n == tables@.len(),
            starts@.len() == j,
            forall|k: int| 0 <= k < j ==> starts@[k] == 0,
        decreases n - j,
    {
        starts.push(0);
        j = j + 1;
    }
    let mut plan: Vec<Partition> = Vec::new();
    // The pivot of the last cut, while that cut fell inside table 0.
    let ghost mut pivot: Option<Seq<u8>> = None;
    let mut i: usize = 0;
    while i < num_threads
        invariant
            tables_well_formed(texts@, tables@),
            n == tables@.len(),
            n >= 1,
            len0 == tables@[0]@.len(),
            len0 + num_threads <= usize::MAX,
            i <= num_threads,
            plan@.len() == i,
            starts@.len() == n,
            forall|j: int| 0 <= j < n ==> #[trigger] starts@[j] <= tables@[j]@.len(),
            i == 0 ==> forall|j: int| 0 <= j < n ==> #[trigger] starts@[j] == 0,
            i > 0 ==> starts@ == plan@[i - 1].ends@,
            i > 0 && i < num_threads && pivot is None ==> cut_point(
                len0 as nat,
                num_threads as nat,
                (i - 1) as nat,
            ) >= len0,
            i == num_threads ==> pivot is None,
            i > 0 && pivot is None ==> forall|j: int|
                0 <= j < n ==> #[trigger] starts@[j] == tables@[j]@.len(),
            pivot is Some ==> i > 0 && starts@[0] < len0 && starts@[0] == cut_point(
                len0 as nat,
                num_threads as nat,
                (i - 1) as nat,
            ) && pivot->0 == suffix_at(texts@[0]@, tables@[0]@, starts@[0] as int),
            pivot is Some ==> forall|j: int|
                1 <= j < n ==> is_lower_bound(
                    texts@[j]@,
                    tables@[j]@,
                    pivot->0,
                    #[trigger] starts@[j] as int,
                ),
            forall|p: int|
                0 <= p < i ==> (#[trigger] plan@[p]).starts@.len() == n && plan@[p].ends@.len()
                    == n,
            forall|j: int| 0 <= j < n && i > 0 ==> #[trigger] plan@[0].starts@[j] == 0,
            forall|p: int, j: int|
                0 <= p < i - 1 && 0 <= j < n ==> #[trigger] plan@[p].ends@[j] == plan@[p
                    + 1].starts@[j],
            forall|p: int, j: int|
                0 <= p < i && 0 <= j < n ==> #[trigger] plan@[p].starts@[j] <= plan@[p].ends@[j],
            forall|p: int| 0 <= p < i ==> separates(texts@, tables@, (#[trigger] plan@[p]).ends@),
            forall|p: int|
                0 <= p < i && p < num_threads - 1 ==> planned_ends(
                    texts@,
                    tables@,
                    num_threads as nat,
                    p as nat,
                    (#[trigger] plan@[p]).ends@,
                ),
        decreases num_threads - i,
    {
        let mut ends: Vec<usize> = Vec::new();
        let mut c: usize = len0;
        if i + 1 < num_threads {
            c = cut_point_of(len0, num_threads, i);
        }
        if c < len0 {
            assert(is_suffix_table(texts@[0]@, tables@[0]@));
            let off = tables[0][c];
            assert(tables@[0]@[c as int] < texts@[0]@.len());
            assert((off as int) < (texts[0].len() as int));
            let piv = vstd::slice::slice_subrange(texts[0].as_slice(), off as usize, texts[0].len());
            let ghost pv = piv@;
            assert(pv == suffix_at(texts@[0]@, tables@[0]@, c as int));
            ends.push(c);
            let mut j: usize = 1;
            while j < n
                invariant
                    tables_well_formed(texts@, tables@),
                    n == tables@.len(),
                    1 <= j <= n,
                    ends@.len() == j,
                    ends@[0] == c,
                    piv@ == pv,
                    forall|k: int|
                        1 <= k < j ==> is_lower_bound(
                            texts@[k]@,
                            tables@[k]@,
                            pv,
                            #[trigger] ends@[k] as int,
                        ),
                decreases n - j,
            {
                assert(is_suffix_table(texts@[j as int]@, tables@[j as int]@));
                let e = locate(texts[j].as_slice(), tables[j].as_slice(), piv);
                ends.push(e);
                j = j + 1;
            }
            proof {
                if i + 1 < num_threads {
                } else {
                    assert(c == len0);
                }
                let t0 = texts@[0]@;
                let a0 = tables@[0]@;
                assert(is_suffix_table(t0, a0));
                // Each range grows.
                if i > 0 && pivot is Some {
                    lemma_cut_increasing(len0 as nat, num_threads as nat, (i - 1) as nat);
                    assert(lex_le(pivot->0, pv));
                }
                if i > 0 && pivot is None {
                    lemma_cut_increasing(len0 as nat, num_threads as nat, (i - 1) as nat);
                    assert(false);
                }
                assert forall|j: int| 0 <= j < n implies #[trigger] starts@[j] <= ends@[j] by {
                    if j >= 1 && i > 0 {
                        lemma_lower_bound_monotone(
                            texts@[j]@,
                            tables@[j]@,
                            pivot->0,
                            pv,
                            starts@[j] as int,
                            ends@[j] as int,
                        );
                    }
                }
                // Everything before the cuts sorts at or before the pivot,
                // everything after at or after it.
                assert forall|j: int, k: int, a: int, b: int|
                    0 <= j < n && 0 <= k < n && 0 <= a < ends@[j] && ends@[k] <= b
                        < tables@[k]@.len() implies lex_le(
                    #[trigger] suffix_at(texts@[j]@, tables@[j]@, a),
                    #[trigger] suffix_at(texts@[k]@, tables@[k]@, b),
                ) by {
                    let sa = suffix_at(texts@[j]@, tables@[j]@, a);
                    let sb = suffix_at(texts@[k]@, tables@[k]@, b);
                    assert(is_suffix_table(texts@[j]@, tables@[j]@));
                    assert(is_suffix_table(texts@[k]@, tables@[k]@));
                    if j == 0 {
                        assert(lex_le(sa, pv));
                    } else {
                        assert(is_lower_bound(texts@[j]@, tables@[j]@, pv, ends@[j] as int));
                        assert(lex_lt(sa, pv));
                        lemma_lex_trichotomy(sa, pv);
                    }
                    if k == 0 {
                        if b > c {
                            assert(lex_le(pv, sb));
                        } else {
                            lemma_lex_trichotomy(pv, pv);
                        }
                    } else {
                        assert(is_lower_bound(texts@[k]@, tables@[k]@, pv, ends@[k] as int));
                        assert(lex_le(pv, sb));
                    }
                    lemma_lex_chain(sa, pv, sb);
                }
                pivot = Some(pv);
            }
        } else {
            let mut j: usize = 0;
            while j < n
                invariant
                    n == tables@.len(),
                    j <= n,
                    ends@.len() == j,
                    forall|k: int| 0 <= k < j ==> #[trigger] ends@[k] == tables@[k]@.len(),
                decreases n - j,
            {
                ends.push(tables[j].len());
                j = j + 1;
            }
            proof {
                pivot = None;
            }
        }
        proof {
            if i + 1 < num_threads {
                assert(c == cut_point(len0 as nat, num_threads as nat, i as nat));
                assert(planned_ends(texts@, tables@, num_threads as nat, i as nat, ends@));
            }
        }
        let next = ends.clone();
        assert(next@ == ends@);
        plan.push(Partition { starts, ends });
        starts = next;
        i = i + 1;
    }
    assert(plan@.len() == num_threads);
    assert forall|j: int| 0 <= j < n implies #[trigger] plan@[num_threads - 1].ends@[j]
        == tables@[j]@.len() by {
        assert(starts@[j] == tables@[j]@.len());
    }
    plan
}

/// Index `k` of table `j` lies in the range of partition `i`.
pub open spec fn in_range(plan: Seq<Partition>, i: int, j: int, k: int) -> bool {
    0 <= i < plan.len() && plan[i].starts@[j] <= k < plan[i].ends@[j]
}

pub proof fn lemma_plan_ordered(tables: Seq<Vec<u64>>, num_threads: nat, plan: Seq<Partition>, j: int, i1: int, i2: int)
    requires
        is_plan(tables, num_threads, plan),
        0 <= j < tables.len(),
        0 <= i1 < i2 < plan.len(),
    ensures
        plan[i1].ends@[j] <= plan[i2].starts@[j],
    decreases i2 - i1,
{
    if i1 + 1 < i2 {
        lemma_plan_ordered(tables, num_threads, plan, j, i1, i2 - 1);
        assert(plan[i2 - 1].starts@[j] <= plan[i2 - 1].ends@[j]);
    }
}

proof fn lemma_plan_reaches(tables: Seq<Vec<u64>>, num_threads: nat, plan: Seq<Partition>, j: int, k: int, i: int)
    requires
        is_plan(tables, num_threads, plan),
        num_threads >= 1,
        0 <= j < tables.len(),
        0 <= k < tables[j]@.len(),
        0 <= i < plan.len(),
        plan[i].starts@[j] <= k,
    ensures
        exists|p: int| #[trigger] in_range(plan, p, j, k),
    decreases plan.len() - i,
{
    if k < plan[i].ends@[j] {
        assert(in_range(plan, i, j, k));
    } else {
        if i == plan.len() - 1 {
            assert(plan[num_threads - 1].ends@[j] == tables[j]@.len());
        }
        lemma_plan_reaches(tables, num_threads, plan, j, k, i + 1);
    }
}

/// The ranges of a plan partition each table exactly: every index of table
/// `j` lies in the range of one partition, and of no other.
pub proof fn lemma_plan_partitions_exactly(
    tables: Seq<Vec<u64>>,
    num_threads: nat,
    plan: Seq<Partition>,
    j: int,
    k: int,
)
    requires
        is_plan(tables, num_threads, plan),
        num_threads >= 1,
        0 <= j < tables.len(),
        0 <= k < tables[j]@.len(),
    ensures
        exists|i: int| #[trigger] in_range(plan, i, j, k),
        forall|i1: int, i2: int|
            #[trigger] in_range(plan, i1, j, k) && #[trigger] in_range(plan, i2, j, k) ==> i1 == i2,
{
    assert(plan[0].starts@[j] == 0);
    lemma_plan_reaches(tables, num_threads, plan, j, k, 0);
    assert forall|i1: int, i2: int|
        #[trigger] in_range(plan, i1, j, k) && #[trigger] in_range(plan, i2, j, k) implies i1 == i2 by {
        if i1 < i2 {
            lemma_plan_ordered(tables, num_threads, plan, j, i1, i2);
        }
        if i2 < i1 {
            lemma_plan_ordered(tables, num_threads, plan, j, i2, i1);
        }
    }
}

} // verus!
