//! The lexicographic order on byte strings, suffix comparison, and lower-bound
//! search in a sorted suffix table.

use vstd::prelude::*;
use std::cmp::Ordering;

verus! {

/// `a` sorts strictly before `b`: at the first differing byte `a` is smaller,
/// or `a` is a proper prefix of `b`.
pub open spec fn lex_lt(a: Seq<u8>, b: Seq<u8>) -> bool
    decreases a.len(),
{
    if a.len() == 0 {
        b.len() > 0
    } else if b.len() == 0 {
        false
    } else if a[0] != b[0] {
        a[0] < b[0]
    } else {
        lex_lt(a.drop_first(), b.drop_first())
    }
}

/// `a` sorts before `b` or equals it.
pub open spec fn lex_le(a: Seq<u8>, b: Seq<u8>) -> bool {
    !lex_lt(b, a)
}

/// The suffix of `text` that starts at `p`.
pub open spec fn suffix(text: Seq<u8>, p: int) -> Seq<u8> {
    text.subrange(p, text.len() as int)
}

/// The suffix that entry `i` of `table` denotes.
pub open spec fn suffix_at(text: Seq<u8>, table: Seq<u64>, i: int) -> Seq<u8> {
    suffix(text, table[i] as int)
}

/// Every entry of `table` is an offset into `text`.
pub open spec fn offsets_in(text: Seq<u8>, table: Seq<u64>) -> bool {
    forall|i: int| 0 <= i < table.len() ==> (#[trigger] table[i] as int) < text.len()
}

/// The suffixes that `table` denotes are in non-decreasing order.
pub open spec fn sorted_by_suffix(text: Seq<u8>, table: Seq<u64>) -> bool {
    forall|i: int, j: int|
        0 <= i < j < table.len() ==> lex_le(
            #[trigger] suffix_at(text, table, i),
            #[trigger] suffix_at(text, table, j),
        )
}

/// `table` is a suffix table of `text`: valid offsets in suffix order.
pub open spec fn is_suffix_table(text: Seq<u8>, table: Seq<u64>) -> bool {
    offsets_in(text, table) && sorted_by_suffix(text, table)
}

/// `p` is the insertion point of `query`: entries before it sort before
/// `query`, entries from it on sort at or after `query`.
pub open spec fn is_lower_bound(text: Seq<u8>, table: Seq<u64>, query: Seq<u8>, p: int) -> bool {
    &&& 0 <= p <= table.len()
    &&& forall|i: int| 0 <= i < p ==> lex_lt(#[trigger] suffix_at(text, table, i), query)
    &&& forall|i: int| p <= i < table.len() ==> lex_le(query, #[trigger] suffix_at(text, table, i))
}

pub proof fn lemma_lex_irreflexive(a: Seq<u8>)
    ensures
        !lex_lt(a, a),
    decreases a.len(),
{
    if a.len() > 0 {
        lemma_lex_irreflexive(a.drop_first());
    }
}

pub proof fn lemma_lex_trichotomy(a: Seq<u8>, b: Seq<u8>)
    ensures
        lex_lt(a, b) || a == b || lex_lt(b, a),
        !(lex_lt(a, b) && lex_lt(b, a)),
    decreases a.len(),
{
    if a.len() > 0 && b.len() > 0 && a[0] == b[0] {
        lemma_lex_trichotomy(a.drop_first(), b.drop_first());
        if a.drop_first() == b.drop_first() {
            assert(a =~= seq![a[0]] + a.drop_first());
            assert(b =~= seq![b[0]] + b.drop_first());
        }
    } else if a.len() == 0 && b.len() == 0 {
        assert(a =~= b);
    }
}

pub proof fn lemma_lex_transitive(a: Seq<u8>, b: Seq<u8>, c: Seq<u8>)
    requires
        lex_lt(a, b),
        lex_lt(b, c),
    ensures
        lex_lt(a, c),
    decreases a.len(),
{
    if a.len() > 0 && a[0] == b[0] && b[0] == c[0] {
        lemma_lex_transitive(a.drop_first(), b.drop_first(), c.drop_first());
    }
}

/// `lex_lt` then `lex_le`, or `lex_le` then `lex_lt`, give `lex_lt`; two
/// `lex_le` give `lex_le`.
pub proof fn lemma_lex_chain(a: Seq<u8>, b: Seq<u8>, c: Seq<u8>)
    ensures
        lex_lt(a, b) && lex_le(b, c) ==> lex_lt(a, c),
        lex_le(a, b) && lex_lt(b, c) ==> lex_lt(a, c),
        lex_le(a, b) && lex_le(b, c) ==> lex_le(a, c),
{
    lemma_lex_trichotomy(a, b);
    lemma_lex_trichotomy(b, c);
    lemma_lex_trichotomy(a, c);
    if lex_lt(a, b) && lex_lt(b, c) {
        lemma_lex_transitive(a, b, c);
    }
    if lex_lt(c, a) && lex_lt(a, b) {
        lemma_lex_transitive(c, a, b);
    }
    if lex_lt(b, c) && lex_lt(c, a) {
        lemma_lex_transitive(b, c, a);
    }
}

/// Compares the suffix of `a` at `ai` with the suffix of `b` at `bi`.
pub fn compare_suffixes(a: &[u8], ai: usize, b: &[u8], bi: usize) -> (r: Ordering)
    requires
        ai <= a@.len(),
        bi <= b@.len(),
    ensures
        (r == Ordering::Less) == lex_lt(suffix(a@, ai as int), suffix(b@, bi as int)),
        (r == Ordering::Equal) == (suffix(a@, ai as int) == suffix(b@, bi as int)),
        (r == Ordering::Greater) == lex_lt(suffix(b@, bi as int), suffix(a@, ai as int)),
{
    let mut i = ai;
    let mut j = bi;
    while i < a.len() && j < b.len() && a[i] == b[j]
        invariant
            ai <= i <= a@.len(),
            bi <= j <= b@.len(),
            i - ai == j - bi,
            lex_lt(suffix(a@, ai as int), suffix(b@, bi as int)) == lex_lt(
                suffix(a@, i as int),
                suffix(b@, j as int),
            ),
            lex_lt(suffix(b@, bi as int), suffix(a@, ai as int)) == lex_lt(
                suffix(b@, j as int),
                suffix(a@, i as int),
            ),
            (suffix(a@, ai as int) == suffix(b@, bi as int)) == (suffix(a@, i as int) == suffix(
                b@,
                j as int,
            )),
        decreases a@.len() - i,
    {
        proof {
            let sa = suffix(a@, i as int);
            let sb = suffix(b@, j as int);
            assert(sa.drop_first() =~= suffix(a@, i + 1));
            assert(sb.drop_first() =~= suffix(b@, j + 1));
            assert(sa =~= seq![sa[0]] + sa.drop_first());
            assert(sb =~= seq![sb[0]] + sb.drop_first());
            if sa.drop_first() == sb.drop_first() {
                assert(sa == sb);
            }
        }
        i = i + 1;
        j = j + 1;
    }
    proof {
        lemma_lex_trichotomy(suffix(a@, i as int), suffix(b@, j as int));
    }
    if i < a.len() && j < b.len() {
        if a[i] < b[j] {
            Ordering::Less
        } else {
            Ordering::Greater
        }
    } else if i < a.len() {
        Ordering::Greater
    } else if j < b.len() {
        Ordering::Less
    } else {
        assert(suffix(a@, i as int) =~= suffix(b@, j as int));
        Ordering::Equal
    }
}

/// The insertion point of `query` among the suffixes that `table` denotes:
/// every entry before it sorts before `query`, every entry from it on sorts
/// at or after `query`, so inserting `query` there keeps the order.
pub fn locate(text: &[u8], table: &[u64], query: &[u8]) -> (p: usize)
    requires
        is_suffix_table(text@, table@),
    ensures
        is_lower_bound(text@, table@, query@, p as int),
{
    let mut left: usize = 0;
    let mut right: usize = table.len();
    while left < right
        invariant
            left <= right <= table@.len(),
            is_suffix_table(text@, table@),
            forall|i: int| 0 <= i < left ==> lex_lt(#[trigger] suffix_at(text@, table@, i), query@),
            forall|i: int|
                right <= i < table@.len() ==> lex_le(query@, #[trigger] suffix_at(text@, table@, i)),
        decreases right - left,
    {
        let mid = left + (right - left) / 2;
        let off = table[mid];
        assert(table@[mid as int] < text@.len());
        assert((off as int) < (text.len() as int));
        let c = compare_suffixes(query, 0, text, off as usize);
        assert(suffix(query@, 0) =~= query@);
        assert(suffix(text@, off as usize as int) == suffix_at(text@, table@, mid as int));
        if let Ordering::Greater = c {
            assert forall|i: int| 0 <= i < mid + 1 implies lex_lt(
                #[trigger] suffix_at(text@, table@, i),
                query@,
            ) by {
                if i < mid {
                    assert(lex_le(suffix_at(text@, table@, i), suffix_at(text@, table@, mid as int)));
                    lemma_lex_chain(suffix_at(text@, table@, i), suffix_at(text@, table@, mid as int), query@);
                }
            }
            left = mid + 1;
        } else {
            assert forall|i: int| mid <= i < table@.len() implies lex_le(
                query@,
                #[trigger] suffix_at(text@, table@, i),
            ) by {
                if i > mid {
                    assert(lex_le(suffix_at(text@, table@, mid as int), suffix_at(text@, table@, i)));
                    lemma_lex_chain(query@, suffix_at(text@, table@, mid as int), suffix_at(text@, table@, i));
                }
            }
            right = mid;
        }
    }
    left
}

/// Insertion points follow their queries: a query that sorts no later than
/// another never gets a later insertion point in the same table.
pub proof fn lemma_lower_bound_monotone(
    text: Seq<u8>,
    table: Seq<u64>,
    q1: Seq<u8>,
    q2: Seq<u8>,
    p1: int,
    p2: int,
)
    requires
        is_lower_bound(text, table, q1, p1),
        is_lower_bound(text, table, q2, p2),
        lex_le(q1, q2),
    ensures
        p1 <= p2,
{
    if p2 < p1 {
        let s = suffix_at(text, table, p2);
        assert(lex_lt(s, q1));
        assert(lex_le(q2, s));
        lemma_lex_chain(q2, s, q1);
        lemma_lex_chain(q1, q2, s);
        lemma_lex_irreflexive(s);
    }
}

/// The length of the longest common prefix of `a` and `b`.
pub open spec fn common_prefix_len(a: Seq<u8>, b: Seq<u8>) -> nat
    decreases a.len(),
{
    if a.len() == 0 || b.len() == 0 || a[0] != b[0] {
        0
    } else {
        1 + common_prefix_len(a.drop_first(), b.drop_first())
    }
}

/// The common prefix length of the suffix of `a` at `ai` and that of `b` at
/// `bi`, counted no further than `limit`.
pub fn matched_len(a: &[u8], ai: usize, b: &[u8], bi: usize, limit: usize) -> (r: usize)
    requires
        ai <= a@.len(),
        bi <= b@.len(),
    ensures
        r as nat == if common_prefix_len(suffix(a@, ai as int), suffix(b@, bi as int)) < limit {
            common_prefix_len(suffix(a@, ai as int), suffix(b@, bi as int))
        } else {
            limit as nat
        },
{
    let mut k: usize = 0;
    while k < limit && ai + k < a.len() && bi + k < b.len() && a[ai + k] == b[bi + k]
        invariant
            ai <= a@.len(),
            bi <= b@.len(),
            k <= limit,
            ai + k <= a.len(),
            bi + k <= b.len(),
            common_prefix_len(suffix(a@, ai as int), suffix(b@, bi as int)) == k
                + common_prefix_len(suffix(a@, ai + k), suffix(b@, bi + k)),
        decreases limit - k,
    {
        proof {
            let sa = suffix(a@, ai + k);
            let sb = suffix(b@, bi + k);
            assert(sa.drop_first() =~= suffix(a@, ai + k + 1));
            assert(sb.drop_first() =~= suffix(b@, bi + k + 1));
        }
        k = k + 1;
    }
    k
}

/// Whether `table` is a suffix table of `text`: every entry an offset into
/// `text`, and the suffixes they denote in non-decreasing order.
pub fn check_suffix_table(text: &[u8], table: &[u64]) -> (r: bool)
    ensures
        r == is_suffix_table(text@, table@),
{
    let mut i: usize = 0;
    while i < table.len()
        invariant
            i <= table@.len(),
            forall|q: int| 0 <= q < i ==> (#[trigger] table@[q] as int) < text@.len(),
        decreases table@.len() - i,
    {
        if table[i] >= text.len() as u64 {
            assert(!offsets_in(text@, table@)) by {
                assert(!((table@[i as int] as int) < text@.len()));
            }
            return false;
        }
        i = i + 1;
    }
    if table.len() == 0 {
        return true;
    }
    let mut i: usize = 1;
    while i < table.len()
        invariant
            1 <= i <= table@.len(),
            offsets_in(text@, table@),
            forall|a: int, b: int|
                0 <= a < b < i ==> lex_le(
                    #[trigger] suffix_at(text@, table@, a),
                    #[trigger] suffix_at(text@, table@, b),
                ),
        decreases table@.len() - i,
    {
        let prev = table[i - 1];
        let cur = table[i];
        assert(table@[i - 1] < text@.len() && table@[i as int] < text@.len());
        assert((prev as int) < (text.len() as int) && (cur as int) < (text.len() as int));
        let c = compare_suffixes(text, prev as usize, text, cur as usize);
        if let Ordering::Greater = c {
            assert(!sorted_by_suffix(text@, table@)) by {
                assert(!lex_le(suffix_at(text@, table@, i - 1), suffix_at(text@, table@, i as int)));
            }
            return false;
        }
        proof {
            let si = suffix_at(text@, table@, i as int);
            let sp = suffix_at(text@, table@, i - 1);
            assert(lex_le(sp, si));
            assert forall|a: int, b: int| 0 <= a < b < i + 1 implies lex_le(
                #[trigger] suffix_at(text@, table@, a),
                #[trigger] suffix_at(text@, table@, b),
            ) by {
                if b == i && a < i - 1 {
                    assert(lex_le(suffix_at(text@, table@, a), sp));
                    lemma_lex_chain(suffix_at(text@, table@, a), sp, si);
                }
            }
        }
        i = i + 1;
    }
    true
}

} // verus!
