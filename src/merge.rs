//! The k-way merge of one partition across overlapping fragments, and the
//! mapping of fragment positions onto positions of the stitched corpus.

use vstd::prelude::*;
use std::cmp::Ordering;
use crate::order::{
    common_prefix_len, compare_suffixes, is_suffix_table, lemma_lex_chain, lemma_lex_trichotomy,
    lex_le, matched_len, suffix, suffix_at,
};
use crate::construct::is_permutation_of_offsets;
use crate::partition::{is_plan, lemma_plan_ordered, separates, tables_well_formed, Partition};

verus! {

/// Bytes at the end of each fragment but the last that repeat the start of
/// the next fragment.
pub const HACKSIZE: usize = 100000;

/// One emitted suffix: `position` in fragment `source`.
#[derive(Clone, Copy, Debug, PartialEq, Eq, Structural)]
pub struct MergeEntry {
    pub source: usize,
    pub position: u64,
}

/// The positions of fragment `j` that the merge keeps: all of the last
/// fragment, and of any other all but its trailing `margin` bytes.
pub open spec fn kept_len(texts: Seq<Vec<u8>>, j: int, margin: nat) -> int {
    if j == texts.len() - 1 {
        texts[j]@.len() as int
    } else {
        texts[j]@.len() - margin
    }
}

/// The entries of `s` below `bound`, in order.
pub open spec fn keep_below(s: Seq<u64>, bound: int) -> Seq<u64>
    decreases s.len(),
{
    if s.len() == 0 {
        Seq::empty()
    } else if (s.last() as int) < bound {
        keep_below(s.drop_last(), bound).push(s.last())
    } else {
        keep_below(s.drop_last(), bound)
    }
}

/// The positions that `out` takes from fragment `j`, in order.
pub open spec fn from_source(out: Seq<MergeEntry>, j: int) -> Seq<u64>
    decreases out.len(),
{
    if out.len() == 0 {
        Seq::empty()
    } else if out.last().source == j {
        from_source(out.drop_last(), j).push(out.last().position)
    } else {
        from_source(out.drop_last(), j)
    }
}

/// The suffix that an entry denotes within its own fragment.
pub open spec fn entry_suffix(texts: Seq<Vec<u8>>, e: MergeEntry) -> Seq<u8> {
    suffix(texts[e.source as int]@, e.position as int)
}

/// The entries denote suffixes in non-decreasing order.
pub open spec fn entries_sorted(texts: Seq<Vec<u8>>, out: Seq<MergeEntry>) -> bool {
    forall|a: int, b: int|
        0 <= a < b < out.len() ==> lex_le(
            #[trigger] entry_suffix(texts, out[a]),
            #[trigger] entry_suffix(texts, out[b]),
        )
}

/// The inputs a partition's merge works on: suffix tables of the fragments,
/// one range per table inside it, and fragments (but the last) at least as
/// long as the margin.
pub open spec fn merge_ready(
    texts: Seq<Vec<u8>>,
    tables: Seq<Vec<u64>>,
    part: Partition,
    margin: nat,
) -> bool {
    &&& tables_well_formed(texts, tables)
    &&& tables.len() >= 1
    &&& part.starts@.len() == tables.len()
    &&& part.ends@.len() == tables.len()
    &&& forall|j: int|
        0 <= j < tables.len() ==> #[trigger] part.starts@[j] <= part.ends@[j] <= tables[j]@.len()
    &&& forall|j: int| 0 <= j < tables.len() - 1 ==> (#[trigger] texts[j]@.len()) >= margin
}

/// What fragment `j` contributes to the merge of `part`: the entries of its
/// range whose position is kept.
pub open spec fn range_kept(
    texts: Seq<Vec<u8>>,
    tables: Seq<Vec<u64>>,
    part: Partition,
    margin: nat,
    j: int,
) -> Seq<u64> {
    keep_below(
        tables[j]@.subrange(part.starts@[j] as int, part.ends@[j] as int),
        kept_len(texts, j, margin),
    )
}

proof fn lemma_keep_below_split(s: Seq<u64>, a: int, b: int, c: int, bound: int)
    requires
        0 <= a <= b <= c <= s.len(),
    ensures
        keep_below(s.subrange(a, c), bound) == keep_below(s.subrange(a, b), bound) + keep_below(
            s.subrange(b, c),
            bound,
        ),
    decreases c - b,
{
    if c > b {
        lemma_keep_below_split(s, a, b, c - 1, bound);
        assert(s.subrange(a, c).drop_last() =~= s.subrange(a, c - 1));
        assert(s.subrange(b, c).drop_last() =~= s.subrange(b, c - 1));
        if (s[c - 1] as int) < bound {
            assert(keep_below(s.subrange(a, c), bound) =~= keep_below(s.subrange(a, b), bound)
                + keep_below(s.subrange(b, c), bound));
        }
    } else {
        assert(s.subrange(b, c) =~= Seq::<u64>::empty());
        assert(keep_below(s.subrange(a, b), bound) + Seq::<u64>::empty() =~= keep_below(
            s.subrange(a, b),
            bound,
        ));
    }
}

/// Skips the entries of `table` from `cursor` on whose position is at or past
/// `bound`, stopping at `end`. Returns the first kept position, if any, and
/// the cursor just past it (or `end`).
fn next_kept(table: &Vec<u64>, cursor: usize, end: usize, bound: u64) -> (r: (Option<u64>, usize))
    requires
        cursor <= end <= table@.len(),
    ensures
        cursor <= r.1 <= end,
        r.0 is Some ==> r.1 > cursor && r.0->0 == table@[r.1 - 1] && keep_below(
            table@.subrange(cursor as int, r.1 as int),
            bound as int,
        ) == seq![r.0->0],
        r.0 is None ==> r.1 == end && keep_below(
            table@.subrange(cursor as int, end as int),
            bound as int,
        ) == Seq::<u64>::empty(),
{
    let mut i = cursor;
    while i < end
        invariant
            cursor <= i <= end <= table@.len(),
            keep_below(table@.subrange(cursor as int, i as int), bound as int) == Seq::<
                u64,
            >::empty(),
        decreases end - i,
    {
        let p = table[i];
        assert(table@.subrange(cursor as int, i + 1).drop_last() =~= table@.subrange(
            cursor as int,
            i as int,
        ));
        if p < bound {
            assert(Seq::<u64>::empty().push(p) =~= seq![p]);
            return (Some(p), i + 1);
        }
        i = i + 1;
    }
    (None, end)
}

/// What the first `k` sources still hold: entries not yet read, and the head
/// each holds, if any.
spec fn pending(ends: Seq<usize>, cursors: Seq<usize>, heads: Seq<Option<u64>>, k: int) -> int
    decreases k,
{
    if k <= 0 {
        0
    } else {
        pending(ends, cursors, heads, k - 1) + (ends[k - 1] - cursors[k - 1]) + if heads[k
            - 1] is Some {
            1int
        } else {
            0int
        }
    }
}

proof fn lemma_pending_update(
    ends: Seq<usize>,
    cursors: Seq<usize>,
    heads: Seq<Option<u64>>,
    c2: Seq<usize>,
    h2: Seq<Option<u64>>,
    m: int,
    k: int,
)
    requires
        0 <= m < cursors.len(),
        cursors.len() == c2.len(),
        heads.len() == h2.len(),
        forall|j: int| 0 <= j < cursors.len() && j != m ==> c2[j] == cursors[j] && h2[j] == heads[j],
        0 <= k <= cursors.len(),
    ensures
        pending(ends, c2, h2, k) == pending(ends, cursors, heads, k) + if m < k {
            ((ends[m] - c2[m]) + if h2[m] is Some {
                1int
            } else {
                0int
            }) - ((ends[m] - cursors[m]) + if heads[m] is Some {
                1int
            } else {
                0int
            })
        } else {
            0int
        },
    decreases k,
{
    if k > 0 {
        lemma_pending_update(ends, cursors, heads, c2, h2, m, k - 1);
    }
}

proof fn lemma_pending_nonneg(ends: Seq<usize>, cursors: Seq<usize>, heads: Seq<Option<u64>>, k: int)
    requires
        0 <= k <= cursors.len(),
        cursors.len() == ends.len(),
        forall|j: int| 0 <= j < cursors.len() ==> cursors[j] <= ends[j],
    ensures
        pending(ends, cursors, heads, k) >= 0,
    decreases k,
{
    if k > 0 {
        lemma_pending_nonneg(ends, cursors, heads, k - 1);
    }
}

/// `[h]` for a head `h`, empty for none.
pub open spec fn head_seq(h: Option<u64>) -> Seq<u64> {
    match h {
        Some(p) => seq![p],
        None => Seq::empty(),
    }
}

/// Merges the ranges of `part` across all fragments into one sequence of
/// entries in suffix order. From each fragment it takes exactly the entries
/// of its range whose position is kept, in table order; positions in a
/// fragment's trailing margin are skipped, as the next fragment holds them.
/// Equal suffixes from different fragments may come in either order.
pub fn merge_sources(
    texts: &Vec<Vec<u8>>,
    tables: &Vec<Vec<u64>>,
    part: &Partition,
    margin: usize,
) -> (r: Vec<MergeEntry>)
    requires
        merge_ready(texts@, tables@, *part, margin as nat),
    ensures
        is_merge_of(texts@, tables@, *part, margin as nat, r@),
{
    let n = tables.len();
    let ghost ends = part.ends@;
    let ghost starts = part.starts@;
    let mut bounds: Vec<u64> = Vec::new();
    let mut cursors: Vec<usize> = Vec::new();
    let mut heads: Vec<Option<u64>> = Vec::new();
    let mut j: usize = 0;
    while j < n
        invariant
            merge_ready(texts@, tables@, *part, margin as nat),
            n == tables@.len(),
            ends == part.ends@,
            starts == part.starts@,
            j <= n,
            bounds@.len() == j,
            cursors@.len() == j,
            heads@.len() == j,
            forall|k: int| 0 <= k < j ==> (#[trigger] bounds@[k]) as int == kept_len(texts@, k, margin as nat),
            forall|k: int| 0 <= k < j ==> starts[k] <= #[trigger] cursors@[k] <= ends[k],
            forall|k: int|
                0 <= k < j ==> head_seq(#[trigger] heads@[k]) == keep_below(
                    tables@[k]@.subrange(starts[k] as int, cursors@[k] as int),
                    bounds@[k] as int,
                ),
            forall|k: int|
                0 <= k < j && (#[trigger] heads@[k]) is Some ==> cursors@[k] > starts[k]
                    && heads@[k]->0 == tables@[k]@[cursors@[k] - 1],
            forall|k: int| 0 <= k < j && (#[trigger] heads@[k]) is None ==> cursors@[k] == ends[k],
        decreases n - j,
    {
        let len = texts[j].len();
        let b: usize = if j + 1 == n {
            len
        } else {
            len - margin
        };
        bounds.push(b as u64);
        let (h, c) = next_kept(&tables[j], part.starts[j], part.ends[j], b as u64);
        heads.push(h);
        cursors.push(c);
        proof {
            if h is Some {
                assert(head_seq(h) == seq![h->0]);
            } else {
                assert(head_seq(h) == Seq::<u64>::empty());
            }
        }
        j = j + 1;
    }
    let mut out: Vec<MergeEntry> = Vec::new();
    proof {
        lemma_pending_nonneg(ends, cursors@, heads@, n as int);
    }
    loop
        invariant
            merge_ready(texts@, tables@, *part, margin as nat),
            n == tables@.len(),
            ends == part.ends@,
            starts == part.starts@,
            bounds@.len() == n,
            cursors@.len() == n,
            heads@.len() == n,
            forall|k: int| 0 <= k < n ==> (#[trigger] bounds@[k]) as int == kept_len(texts@, k, margin as nat),
            forall|k: int| 0 <= k < n ==> starts[k] <= #[trigger] cursors@[k] <= ends[k],
            forall|k: int|
                0 <= k < n ==> from_source(out@, k) + head_seq(#[trigger] heads@[k]) == keep_below(
                    tables@[k]@.subrange(starts[k] as int, cursors@[k] as int),
                    bounds@[k] as int,
                ),
            forall|k: int|
                0 <= k < n && (#[trigger] heads@[k]) is Some ==> cursors@[k] > starts[k]
                    && heads@[k]->0 == tables@[k]@[cursors@[k] - 1],
            forall|k: int| 0 <= k < n && (#[trigger] heads@[k]) is None ==> cursors@[k] == ends[k],
            forall|i: int| 0 <= i < out@.len() ==> (#[trigger] out@[i]).source < n,
            entries_sorted(texts@, out@),
            forall|a: int, k: int|
                0 <= a < out@.len() && 0 <= k < n && (#[trigger] heads@[k]) is Some ==> lex_le(
                    #[trigger] entry_suffix(texts@, out@[a]),
                    suffix(texts@[k]@, heads@[k]->0 as int),
                ),
        ensures
            forall|q: int| 0 <= q < n ==> (#[trigger] heads@[q]) is None,
        decreases pending(ends, cursors@, heads@, n as int),
    {
        // The source whose head sorts first.
        let mut best: usize = n;
        let mut k: usize = 0;
        while k < n
            invariant
                merge_ready(texts@, tables@, *part, margin as nat),
                n == tables@.len(),
                heads@.len() == n,
                cursors@.len() == n,
                k <= n,
                best <= n,
                forall|q: int|
                    0 <= q < n && (#[trigger] heads@[q]) is Some ==> cursors@[q] > starts[q]
                        && heads@[q]->0 == tables@[q]@[cursors@[q] - 1],
                forall|q: int| 0 <= q < n ==> starts[q] <= #[trigger] cursors@[q] <= ends[q],
                starts == part.starts@,
                ends == part.ends@,
                best == n ==> forall|q: int| 0 <= q < k ==> (#[trigger] heads@[q]) is None,
                best < n ==> best < k && heads@[best as int] is Some,
                best < n ==> forall|q: int|
                    0 <= q < k && (#[trigger] heads@[q]) is Some ==> lex_le(
                        suffix(texts@[best as int]@, heads@[best as int]->0 as int),
                        suffix(texts@[q]@, heads@[q]->0 as int),
                    ),
            decreases n - k,
        {
            if let Some(h) = heads[k] {
                proof {
                    assert(is_suffix_table(texts@[k as int]@, tables@[k as int]@));
                    assert(tables@[k as int]@[cursors@[k as int] - 1] < texts@[k as int]@.len());
                    assert((h as int) < (texts[k as int].len() as int));
                }
                if best == n {
                    best = k;
                    proof {
                        lemma_lex_trichotomy(suffix(texts@[k as int]@, h as int), suffix(texts@[k as int]@, h as int));
                    }
                } else {
                    let hb = heads[best].unwrap();
                    proof {
                        let bb = best as int;
                        assert(is_suffix_table(texts@[bb]@, tables@[bb]@));
                        assert(tables@[bb]@[cursors@[bb] - 1] < texts@[bb]@.len());
                        assert((hb as int) < (texts[bb].len() as int));
                    }
                    let c = compare_suffixes(
                        texts[k].as_slice(),
                        h as usize,
                        texts[best].as_slice(),
                        hb as usize,
                    );
                    let ghost sk = suffix(texts@[k as int]@, h as int);
                    let ghost sb = suffix(texts@[best as int]@, hb as int);
                    if let Ordering::Less = c {
                        proof {
                            assert forall|q: int|
                                0 <= q < k + 1 && (#[trigger] heads@[q]) is Some implies lex_le(
                                sk,
                                suffix(texts@[q]@, heads@[q]->0 as int),
                            ) by {
                                lemma_lex_trichotomy(sk, sb);
                                if q < k {
                                    lemma_lex_chain(sk, sb, suffix(texts@[q]@, heads@[q]->0 as int));
                                } else {
                                    lemma_lex_trichotomy(sk, sk);
                                }
                            }
                        }
                        best = k;
                    } else {
                        proof {
                            lemma_lex_trichotomy(sk, sb);
                        }
                    }
                }
            }
            k = k + 1;
        }
        if best == n {
            break;
        }
        let m = best;
        let h = heads[m].unwrap();
        let ghost old_out = out@;
        let ghost old_heads = heads@;
        let ghost old_cursors = cursors@;
        out.push(MergeEntry { source: m, position: h });
        let cur = cursors[m];
        let (h2, c2) = next_kept(&tables[m], cur, part.ends[m], bounds[m]);
        heads.set(m, h2);
        cursors.set(m, c2);
        proof {
            let mi = m as int;
            let e = MergeEntry { source: m, position: h };
            let t = tables@[mi]@;
            let sh = suffix(texts@[mi]@, h as int);
            assert(out@.drop_last() == old_out);
            assert(entry_suffix(texts@, e) == sh);
            assert(is_suffix_table(texts@[mi]@, t));
            // Bookkeeping per source.
            assert forall|q: int| 0 <= q < n implies from_source(out@, q) + head_seq(
                #[trigger] heads@[q],
            ) == keep_below(tables@[q]@.subrange(starts[q] as int, cursors@[q] as int), bounds@[q] as int) by {
                if q == mi {
                    lemma_keep_below_split(t, starts[q] as int, cur as int, c2 as int, bounds@[q] as int);
                    assert(from_source(out@, q) == from_source(old_out, q).push(h));
                    assert(head_seq(old_heads[q]) == seq![h]);
                    assert(from_source(out@, q) + head_seq(h2) =~= from_source(old_out, q) + head_seq(old_heads[q])
                        + head_seq(h2));
                    if h2 is None {
                        assert(head_seq(h2) == Seq::<u64>::empty());
                    } else {
                        assert(head_seq(h2) == seq![h2->0]);
                    }
                } else {
                    assert(from_source(out@, q) == from_source(old_out, q));
                }
            }
            // The emitted suffix sorts after all before it and before every head.
            if let Some(p2) = h2 {
                let i1 = cur - 1;
                let i2 = c2 - 1;
                assert(suffix_at(texts@[mi]@, t, i1 as int) == sh);
                if i1 < i2 {
                    assert(lex_le(suffix_at(texts@[mi]@, t, i1 as int), suffix_at(texts@[mi]@, t, i2 as int)));
                }
                assert(lex_le(sh, suffix(texts@[mi]@, p2 as int))) by {
                    lemma_lex_trichotomy(sh, sh);
                }
            }
            assert forall|a: int, q: int|
                0 <= a < out@.len() && 0 <= q < n && (#[trigger] heads@[q]) is Some implies lex_le(
                #[trigger] entry_suffix(texts@, out@[a]),
                suffix(texts@[q]@, heads@[q]->0 as int),
            ) by {
                let sq = suffix(texts@[q]@, heads@[q]->0 as int);
                if a < old_out.len() {
                    assert(lex_le(entry_suffix(texts@, old_out[a]), sh));
                    lemma_lex_chain(entry_suffix(texts@, old_out[a]), sh, sq);
                }
                if q != mi {
                    assert(old_heads[q] == heads@[q]);
                }
            }
            assert forall|a: int, b: int| 0 <= a < b < out@.len() implies lex_le(
                #[trigger] entry_suffix(texts@, out@[a]),
                #[trigger] entry_suffix(texts@, out@[b]),
            ) by {
                if b == out@.len() - 1 {
                    assert(lex_le(entry_suffix(texts@, old_out[a]), sh));
                } else {
                    assert(lex_le(entry_suffix(texts@, old_out[a]), entry_suffix(texts@, old_out[b])));
                }
            }
            lemma_pending_update(ends, old_cursors, old_heads, cursors@, heads@, mi, n as int);
            lemma_pending_nonneg(ends, cursors@, heads@, n as int);
        }
    }
    proof {
        assert forall|q: int| 0 <= q < n implies #[trigger] from_source(out@, q) == range_kept(
            texts@,
            tables@,
            *part,
            margin as nat,
            q,
        ) by {
            assert(heads@[q] is None);
            assert(head_seq(heads@[q]) == Seq::<u64>::empty());
            assert(from_source(out@, q) + Seq::<u64>::empty() =~= from_source(out@, q));
        }
    }
    out
}

proof fn lemma_from_source_has(out: Seq<MergeEntry>, i: int)
    requires
        0 <= i < out.len(),
    ensures
        from_source(out, out[i].source as int).contains(out[i].position),
    decreases out.len(),
{
    let j = out[i].source as int;
    if i == out.len() - 1 {
        let f = from_source(out, j);
        assert(f[f.len() - 1] == out[i].position);
    } else {
        lemma_from_source_has(out.drop_last(), i);
        let f0 = from_source(out.drop_last(), j);
        let x = out[i].position;
        let w = choose|w: int| 0 <= w < f0.len() && f0[w] == x;
        assert(from_source(out, j)[w] == x);
    }
}

proof fn lemma_keep_below_from(s: Seq<u64>, bound: int, x: u64)
    requires
        keep_below(s, bound).contains(x),
    ensures
        exists|a: int| 0 <= a < s.len() && s[a] == x,
        (x as int) < bound,
    decreases s.len(),
{
    if s.len() > 0 {
        let init = keep_below(s.drop_last(), bound);
        if init.contains(x) {
            lemma_keep_below_from(s.drop_last(), bound, x);
            let a = choose|a: int| 0 <= a < s.drop_last().len() && s.drop_last()[a] == x;
            assert(s[a] == x);
        } else {
            assert(s[s.len() - 1] == x);
            assert((s.last() as int) < bound);
        }
    }
}

/// What a merge of partition `part` yields: entries in suffix order that take
/// from each fragment exactly the kept entries of its range.
pub open spec fn is_merge_of(
    texts: Seq<Vec<u8>>,
    tables: Seq<Vec<u64>>,
    part: Partition,
    margin: nat,
    out: Seq<MergeEntry>,
) -> bool {
    &&& entries_sorted(texts, out)
    &&& forall|i: int| 0 <= i < out.len() ==> (#[trigger] out[i]).source < tables.len()
    &&& forall|j: int|
        0 <= j < tables.len() ==> #[trigger] from_source(out, j) == range_kept(
            texts,
            tables,
            part,
            margin,
            j,
        )
}

proof fn lemma_entry_index(
    texts: Seq<Vec<u8>>,
    tables: Seq<Vec<u64>>,
    part: Partition,
    margin: nat,
    out: Seq<MergeEntry>,
    i: int,
) -> (a: int)
    requires
        merge_ready(texts, tables, part, margin),
        is_merge_of(texts, tables, part, margin, out),
        0 <= i < out.len(),
    ensures
        part.starts@[out[i].source as int] <= a < part.ends@[out[i].source as int],
        entry_suffix(texts, out[i]) == suffix_at(
            texts[out[i].source as int]@,
            tables[out[i].source as int]@,
            a,
        ),
{
    let j = out[i].source as int;
    assert(out[i].source < tables.len());
    lemma_from_source_has(out, i);
    assert(from_source(out, j) == range_kept(texts, tables, part, margin, j));
    let lo = part.starts@[j] as int;
    let hi = part.ends@[j] as int;
    let s = tables[j]@.subrange(lo, hi);
    lemma_keep_below_from(s, kept_len(texts, j, margin), out[i].position);
    let w = choose|w: int| 0 <= w < s.len() && s[w] == out[i].position;
    lo + w
}

/// Partitions come out in order: every suffix that the merge of an earlier
/// partition of a plan yields sorts at or before every suffix that the merge
/// of a later one yields, so the outputs, concatenated in partition order,
/// are in suffix order.
pub proof fn lemma_partitions_in_order(
    texts: Seq<Vec<u8>>,
    tables: Seq<Vec<u64>>,
    num_threads: nat,
    plan: Seq<Partition>,
    margin: nat,
    outs: Seq<Seq<MergeEntry>>,
    i1: int,
    i2: int,
    a: int,
    b: int,
)
    requires
        is_plan(tables, num_threads, plan),
        forall|i: int| 0 <= i < plan.len() ==> separates(texts, tables, (#[trigger] plan[i]).ends@),
        forall|i: int| 0 <= i < plan.len() ==> merge_ready(texts, tables, #[trigger] plan[i], margin),
        outs.len() == plan.len(),
        forall|i: int|
            0 <= i < plan.len() ==> is_merge_of(texts, tables, #[trigger] plan[i], margin, outs[i]),
        0 <= i1 < i2 < plan.len(),
        0 <= a < outs[i1].len(),
        0 <= b < outs[i2].len(),
    ensures
        lex_le(entry_suffix(texts, outs[i1][a]), entry_suffix(texts, outs[i2][b])),
{
    let p1 = plan[i1];
    let p2 = plan[i2];
    assert(merge_ready(texts, tables, p1, margin));
    assert(merge_ready(texts, tables, p2, margin));
    assert(is_merge_of(texts, tables, p1, margin, outs[i1]));
    assert(is_merge_of(texts, tables, p2, margin, outs[i2]));
    let x = lemma_entry_index(texts, tables, p1, margin, outs[i1], a);
    let y = lemma_entry_index(texts, tables, p2, margin, outs[i2], b);
    let j = outs[i1][a].source as int;
    let k = outs[i2][b].source as int;
    lemma_plan_ordered(tables, num_threads, plan, k, i1, i2);
    assert(separates(texts, tables, p1.ends@));
    assert(lex_le(suffix_at(texts[j]@, tables[j]@, x), suffix_at(texts[k]@, tables[k]@, y)));
}

/// The kept lengths of all fragments.
pub open spec fn kept_lens(texts: Seq<Vec<u8>>, margin: nat) -> Seq<int> {
    Seq::new(texts.len(), |j: int| kept_len(texts, j, margin))
}

/// Where fragment `j` starts in the stitched corpus: the kept lengths of the
/// fragments before it, summed.
pub open spec fn offset_of(lens: Seq<int>, j: int) -> int
    decreases j,
{
    if j <= 0 {
        0
    } else {
        offset_of(lens, j - 1) + lens[j - 1]
    }
}

/// Position `p` of fragment `j` is a kept position, and lands on `g`.
pub open spec fn lands_on(lens: Seq<int>, j: int, p: int, g: int) -> bool {
    0 <= j < lens.len() && 0 <= p < lens[j] && p + offset_of(lens, j) == g
}

proof fn lemma_offset_monotone(lens: Seq<int>, j1: int, j2: int)
    requires
        0 <= j1 <= j2 <= lens.len(),
        forall|j: int| 0 <= j < lens.len() ==> lens[j] >= 0,
    ensures
        offset_of(lens, j1) <= offset_of(lens, j2),
    decreases j2 - j1,
{
    if j1 < j2 {
        lemma_offset_monotone(lens, j1, j2 - 1);
    }
}

proof fn lemma_lands_somewhere(lens: Seq<int>, g: int, j: int)
    requires
        forall|q: int| 0 <= q < lens.len() ==> lens[q] >= 0,
        0 <= j <= lens.len(),
        offset_of(lens, j) <= g < offset_of(lens, lens.len() as int),
    ensures
        exists|q: int, p: int| #[trigger] lands_on(lens, q, p, g),
    decreases lens.len() - j,
{
    if j == lens.len() {
    } else if g < offset_of(lens, j + 1) {
        assert(lands_on(lens, j, g - offset_of(lens, j), g));
    } else {
        lemma_lands_somewhere(lens, g, j + 1);
    }
}

/// Stitching keeps every position exactly once: each position of the
/// stitched corpus is the landing place of one kept position of one
/// fragment, and of no other. A suffix that starts in a fragment's margin is
/// thus emitted once, from the fragment that follows, never twice.
pub proof fn lemma_stitching_exact(lens: Seq<int>, g: int)
    requires
        forall|j: int| 0 <= j < lens.len() ==> lens[j] >= 0,
        0 <= g < offset_of(lens, lens.len() as int),
    ensures
        exists|j: int, p: int| #[trigger] lands_on(lens, j, p, g),
        forall|j1: int, p1: int, j2: int, p2: int|
            #[trigger] lands_on(lens, j1, p1, g) && #[trigger] lands_on(lens, j2, p2, g) ==> j1 == j2
                && p1 == p2,
{
    lemma_lands_somewhere(lens, g, 0);
    assert forall|j1: int, p1: int, j2: int, p2: int|
        #[trigger] lands_on(lens, j1, p1, g) && #[trigger] lands_on(lens, j2, p2, g) implies j1 == j2
        && p1 == p2 by {
        if j1 < j2 {
            lemma_offset_monotone(lens, j1 + 1, j2);
        } else if j2 < j1 {
            lemma_offset_monotone(lens, j2 + 1, j1);
        }
    }
}

/// Where each fragment starts in the stitched corpus, followed by the
/// corpus's total length.
pub fn fragment_offsets(texts: &Vec<Vec<u8>>, margin: usize) -> (r: Vec<u64>)
    requires
        forall|j: int| 0 <= j < texts@.len() - 1 ==> (#[trigger] texts@[j]@.len()) >= margin,
        offset_of(kept_lens(texts@, margin as nat), texts@.len() as int) <= u64::MAX,
    ensures
        r@.len() == texts@.len() + 1,
        forall|j: int|
            0 <= j <= texts@.len() ==> #[trigger] r@[j] == offset_of(
                kept_lens(texts@, margin as nat),
                j,
            ),
{
    let n = texts.len();
    let ghost lens = kept_lens(texts@, margin as nat);
    proof {
        lemma_offset_monotone(lens, 0, n as int);
    }
    let mut r: Vec<u64> = Vec::new();
    let mut acc: u64 = 0;
    r.push(0);
    let mut j: usize = 0;
    while j < n
        invariant
            n == texts@.len(),
            lens == kept_lens(texts@, margin as nat),
            forall|q: int| 0 <= q < texts@.len() - 1 ==> (#[trigger] texts@[q]@.len()) >= margin,
            offset_of(lens, n as int) <= u64::MAX,
            j <= n,
            acc == offset_of(lens, j as int),
            r@.len() == j + 1,
            forall|q: int| 0 <= q <= j ==> #[trigger] r@[q] == offset_of(lens, q),
        decreases n - j,
    {
        proof {
            assert forall|q: int| 0 <= q < lens.len() implies lens[q] >= 0 by {
                if q < n - 1 {
                    assert(texts@[q]@.len() >= margin);
                }
            }
            lemma_offset_monotone(lens, j + 1, n as int);
        }
        let len = texts[j].len();
        let k: usize = if j + 1 == n {
            len
        } else {
            len - margin
        };
        acc = acc + k as u64;
        r.push(acc);
        j = j + 1;
    }
    r
}

/// Translates each entry into a position of the stitched corpus: its
/// position plus the offset of its fragment.
pub fn to_global(entries: &Vec<MergeEntry>, offsets: &Vec<u64>) -> (r: Vec<u64>)
    requires
        forall|i: int|
            0 <= i < entries@.len() ==> (#[trigger] entries@[i]).source < offsets@.len()
                && entries@[i].position + offsets@[entries@[i].source as int] <= u64::MAX,
    ensures
        r@.len() == entries@.len(),
        forall|i: int|
            0 <= i < entries@.len() ==> #[trigger] r@[i] == entries@[i].position
                + offsets@[entries@[i].source as int],
{
    let mut r: Vec<u64> = Vec::new();
    let mut i: usize = 0;
    while i < entries.len()
        invariant
            i <= entries@.len(),
            r@.len() == i,
            forall|q: int|
                0 <= q < entries@.len() ==> (#[trigger] entries@[q]).source < offsets@.len()
                    && entries@[q].position + offsets@[entries@[q].source as int] <= u64::MAX,
            forall|q: int|
                0 <= q < i ==> #[trigger] r@[q] == entries@[q].position + offsets@[entries@[q].source as int],
        decreases entries@.len() - i,
    {
        let e = entries[i];
        r.push(e.position + offsets[e.source]);
        i = i + 1;
    }
    r
}

/// How far the common prefix of two emitted suffixes is followed.
pub const LONG_MATCH_PROBE: usize = 50000000;

/// A common prefix longer than this makes the merge warn that it may run in
/// quadratic time.
pub const LONG_MATCH_WARN: usize = 5000000;

/// The common prefix of the suffixes of entries `i` and `i + 1`, followed no
/// further than `probe`, is longer than `threshold`.
pub open spec fn long_pair(
    texts: Seq<Vec<u8>>,
    entries: Seq<MergeEntry>,
    i: int,
    probe: nat,
    threshold: nat,
) -> bool {
    let c = common_prefix_len(entry_suffix(texts, entries[i]), entry_suffix(texts, entries[i + 1]));
    (if c < probe {
        c
    } else {
        probe
    }) > threshold
}

/// Whether two consecutive entries share a prefix longer than `threshold`,
/// looking no further than `probe` bytes: the sign of pathologically long
/// repeats, on which the merge degrades toward quadratic time.
pub fn has_long_repeat(
    texts: &Vec<Vec<u8>>,
    entries: &Vec<MergeEntry>,
    probe: usize,
    threshold: usize,
) -> (r: bool)
    requires
        forall|i: int|
            0 <= i < entries@.len() ==> (#[trigger] entries@[i]).source < texts@.len()
                && entries@[i].position <= texts@[entries@[i].source as int]@.len(),
    ensures
        r == exists|i: int|
            0 <= i < entries@.len() - 1 && #[trigger] long_pair(
                texts@,
                entries@,
                i,
                probe as nat,
                threshold as nat,
            ),
{
    let mut i: usize = 0;
    while i + 1 < entries.len()
        invariant
            forall|q: int|
                0 <= q < entries@.len() ==> (#[trigger] entries@[q]).source < texts@.len()
                    && entries@[q].position <= texts@[entries@[q].source as int]@.len(),
            i == 0 || i < entries.len(),
            forall|q: int|
                0 <= q < i ==> !#[trigger] long_pair(
                    texts@,
                    entries@,
                    q,
                    probe as nat,
                    threshold as nat,
                ),
        decreases entries@.len() - i,
    {
        let e = entries[i];
        let f = entries[i + 1];
        let ta = texts[e.source].as_slice();
        let tb = texts[f.source].as_slice();
        assert((e.position as int) <= (ta.len() as int));
        assert((f.position as int) <= (tb.len() as int));
        let m = matched_len(ta, e.position as usize, tb, f.position as usize, probe);
        if m > threshold {
            assert(long_pair(texts@, entries@, i as int, probe as nat, threshold as nat));
            return true;
        }
        i = i + 1;
    }
    false
}

/// Where an entry lands in the stitched corpus.
pub open spec fn global_of(texts: Seq<Vec<u8>>, margin: nat, e: MergeEntry) -> int {
    e.position + offset_of(kept_lens(texts, margin), e.source as int)
}

proof fn lemma_keep_below_has(s: Seq<u64>, bound: int, x: u64)
    requires
        s.contains(x),
        (x as int) < bound,
    ensures
        keep_below(s, bound).contains(x),
    decreases s.len(),
{
    let k = keep_below(s, bound);
    if s.last() == x {
        assert(k[k.len() - 1] == x);
    } else {
        let w = choose|w: int| 0 <= w < s.len() && s[w] == x;
        assert(s.drop_last()[w] == x);
        lemma_keep_below_has(s.drop_last(), bound, x);
        let k0 = keep_below(s.drop_last(), bound);
        let v = choose|v: int| 0 <= v < k0.len() && k0[v] == x;
        assert(k[v] == x);
    }
}

proof fn lemma_keep_below_distinct(s: Seq<u64>, bound: int)
    requires
        s.no_duplicates(),
    ensures
        keep_below(s, bound).no_duplicates(),
    decreases s.len(),
{
    if s.len() > 0 {
        let init = s.drop_last();
        assert(init.no_duplicates());
        lemma_keep_below_distinct(init, bound);
        let k0 = keep_below(init, bound);
        if (s.last() as int) < bound {
            if k0.contains(s.last()) {
                lemma_keep_below_from(init, bound, s.last());
                let a = choose|a: int| 0 <= a < init.len() && init[a] == s.last();
                assert(s[a] == s[s.len() - 1]);
            }
            let k = k0.push(s.last());
            assert forall|a: int, b: int| 0 <= a < b < k.len() implies k[a] != k[b] by {
                if b == k.len() - 1 {
                    assert(k0[a] == k[a]);
                }
            }
        }
    }
}

proof fn lemma_from_source_back(out: Seq<MergeEntry>, j: int, p: u64)
    requires
        from_source(out, j).contains(p),
    ensures
        exists|i: int| 0 <= i < out.len() && out[i].source == j && out[i].position == p,
    decreases out.len(),
{
    if out.len() > 0 {
        let f0 = from_source(out.drop_last(), j);
        if f0.contains(p) {
            lemma_from_source_back(out.drop_last(), j, p);
            let i = choose|i: int|
                0 <= i < out.drop_last().len() && out.drop_last()[i].source == j
                    && out.drop_last()[i].position == p;
            assert(out[i] == out.drop_last()[i]);
        } else {
            assert(out[out.len() - 1].source == j && out[out.len() - 1].position == p);
        }
    }
}

proof fn lemma_from_source_once(out: Seq<MergeEntry>, j: int, i1: int, i2: int)
    requires
        from_source(out, j).no_duplicates(),
        0 <= i1 < i2 < out.len(),
        out[i1].source == j,
        out[i2].source == j,
    ensures
        out[i1].position != out[i2].position,
    decreases out.len(),
{
    let init = out.drop_last();
    let f0 = from_source(init, j);
    let f = from_source(out, j);
    if out.last().source == j {
        assert(f == f0.push(out.last().position));
        assert forall|a: int, b: int| 0 <= a < b < f0.len() implies f0[a] != f0[b] by {
            assert(f[a] == f0[a] && f[b] == f0[b]);
        }
    } else {
        assert(f == f0);
    }
    assert(out[i1] == init[i1]);
    if i2 == out.len() - 1 {
        lemma_from_source_has(init, i1);
        let w = choose|w: int| 0 <= w < f0.len() && f0[w] == init[i1].position;
        assert(f[w] == f0[w]);
        assert(f[f.len() - 1] == out[i2].position);
    } else {
        assert(out[i2] == init[i2]);
        lemma_from_source_once(init, j, i1, i2);
    }
}

/// A merge over whole suffix tables emits every position of the stitched
/// corpus exactly once: no suffix is lost at a fragment boundary, and none
/// that starts in a margin is emitted twice.
pub proof fn lemma_merge_emits_each_position_once(
    texts: Seq<Vec<u8>>,
    tables: Seq<Vec<u64>>,
    part: Partition,
    margin: nat,
    out: Seq<MergeEntry>,
    g: int,
)
    requires
        merge_ready(texts, tables, part, margin),
        is_merge_of(texts, tables, part, margin, out),
        forall|j: int|
            0 <= j < tables.len() ==> (#[trigger] part.starts@[j]) == 0 && part.ends@[j]
                == tables[j]@.len(),
        forall|j: int|
            0 <= j < tables.len() ==> is_permutation_of_offsets(#[trigger] texts[j]@, tables[j]@),
        0 <= g < offset_of(kept_lens(texts, margin), texts.len() as int),
    ensures
        exists|i: int| 0 <= i < out.len() && #[trigger] global_of(texts, margin, out[i]) == g,
        forall|i1: int, i2: int|
            0 <= i1 < out.len() && 0 <= i2 < out.len() && #[trigger] global_of(texts, margin, out[i1])
                == g && #[trigger] global_of(texts, margin, out[i2]) == g ==> i1 == i2,
{
    let lens = kept_lens(texts, margin);
    assert forall|j: int| 0 <= j < lens.len() implies lens[j] >= 0 by {
        if j < tables.len() - 1 {
            assert(texts[j]@.len() >= margin);
        }
    }
    lemma_stitching_exact(lens, g);
    // Each kept position of each fragment is emitted once.
    assert forall|j: int| 0 <= j < tables.len() implies (#[trigger] from_source(out, j)).no_duplicates()
        && forall|p: u64| (p as int) < kept_len(texts, j, margin) ==> from_source(out, j).contains(p) by {
        let t = tables[j]@;
        assert(is_permutation_of_offsets(texts[j]@, t));
        assert(part.starts@[j] == 0);
        assert(t.subrange(0, t.len() as int) =~= t);
        assert(from_source(out, j) == keep_below(t, kept_len(texts, j, margin)));
        lemma_keep_below_distinct(t, kept_len(texts, j, margin));
        assert forall|p: u64| (p as int) < kept_len(texts, j, margin) implies from_source(out, j).contains(p) by {
            assert(t.contains(p));
            lemma_keep_below_has(t, kept_len(texts, j, margin), p);
        }
    }
    let (j, p) = choose|j: int, p: int| #[trigger] lands_on(lens, j, p, g);
    assert(from_source(out, j).contains(p as u64));
    lemma_from_source_back(out, j, p as u64);
    let i = choose|i: int| 0 <= i < out.len() && out[i].source == j && out[i].position == p as u64;
    assert(global_of(texts, margin, out[i]) == g);
    assert forall|i1: int, i2: int|
        0 <= i1 < out.len() && 0 <= i2 < out.len() && #[trigger] global_of(texts, margin, out[i1])
            == g && #[trigger] global_of(texts, margin, out[i2]) == g implies i1 == i2 by {
        let e1 = out[i1];
        let e2 = out[i2];
        assert(e1.source < tables.len() && e2.source < tables.len());
        lemma_from_source_has(out, i1);
        lemma_from_source_has(out, i2);
        lemma_keep_below_from(
            tables[e1.source as int]@.subrange(0, tables[e1.source as int]@.len() as int),
            kept_len(texts, e1.source as int, margin),
            e1.position,
        );
        lemma_keep_below_from(
            tables[e2.source as int]@.subrange(0, tables[e2.source as int]@.len() as int),
            kept_len(texts, e2.source as int, margin),
            e2.position,
        );
        assert(lands_on(lens, e1.source as int, e1.position as int, g));
        assert(lands_on(lens, e2.source as int, e2.position as int, g));
        if i1 < i2 {
            lemma_from_source_once(out, e1.source as int, i1, i2);
        } else if i2 < i1 {
            lemma_from_source_once(out, e1.source as int, i2, i1);
        }
    }
}

} // verus!
