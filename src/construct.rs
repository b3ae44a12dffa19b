//! A direct suffix table construction for one in-memory text.

use vstd::prelude::*;
use crate::order::{
    is_suffix_table, lemma_lex_chain, lemma_lex_trichotomy, lex_le, lex_lt,
    locate, suffix, suffix_at,
};

verus! {

/// `table` lists every offset of `text` exactly once.
pub open spec fn is_permutation_of_offsets(text: Seq<u8>, table: Seq<u64>) -> bool {
    &&& table.len() == text.len()
    &&& table.no_duplicates()
    &&& forall|p: u64| (p as int) < text.len() ==> #[trigger] table.contains(p)
}

/// The suffix table of `text`: every offset once, in suffix order. Each
/// offset is inserted at the insertion point of its suffix among those
/// placed so far.
pub fn build_suffix_array(text: &[u8]) -> (r: Vec<u64>)
    ensures
        is_suffix_table(text@, r@),
        is_permutation_of_offsets(text@, r@),
{
    let n = text.len();
    let mut table: Vec<u64> = Vec::new();
    let mut p: usize = 0;
    while p < n
        invariant
            n == text@.len(),
            p <= n,
            table@.len() == p,
            is_suffix_table(text@, table@),
            table@.no_duplicates(),
            forall|i: int| 0 <= i < p ==> (#[trigger] table@[i]) < p,
            forall|q: u64| q < p ==> #[trigger] table@.contains(q),
        decreases n - p,
    {
        let query = vstd::slice::slice_subrange(text, p, n);
        let at = locate(text, table.as_slice(), query);
        let ghost old_t = table@;
        let ghost sq = suffix(text@, p as int);
        assert(query@ == sq);
        table.insert(at, p as u64);
        proof {
            let t = table@;
            assert(t == old_t.insert(at as int, p as u64));
            assert forall|i: int| 0 <= i < t.len() implies suffix_at(text@, t, i) == if i
                < at {
                suffix_at(text@, old_t, i)
            } else if i == at {
                sq
            } else {
                suffix_at(text@, old_t, i - 1)
            } by {}
            assert forall|i: int, j: int| 0 <= i < j < t.len() implies lex_le(
                #[trigger] suffix_at(text@, t, i),
                #[trigger] suffix_at(text@, t, j),
            ) by {
                let si = suffix_at(text@, t, i);
                let sj = suffix_at(text@, t, j);
                if i < at && j < at {
                    assert(lex_le(suffix_at(text@, old_t, i), suffix_at(text@, old_t, j)));
                } else if i < at && j == at {
                    assert(lex_lt(si, sq));
                    lemma_lex_trichotomy(si, sq);
                } else if i < at {
                    assert(lex_lt(si, sq));
                    assert(lex_le(sq, sj));
                    lemma_lex_chain(si, sq, sj);
                } else if i == at {
                    assert(lex_le(sq, sj));
                } else {
                    assert(lex_le(suffix_at(text@, old_t, i - 1), suffix_at(text@, old_t, j - 1)));
                }
            }
            assert forall|i: int| 0 <= i < t.len() implies (#[trigger] t[i] as int) < text@.len() by {
                if i < at {
                    assert(old_t[i] < p);
                } else if i > at {
                    assert(old_t[i - 1] < p);
                }
            }
            assert forall|i: int| 0 <= i < t.len() implies (#[trigger] t[i]) < p + 1 by {
                if i < at {
                    assert(old_t[i] < p);
                } else if i > at {
                    assert(old_t[i - 1] < p);
                }
            }
            assert(!old_t.contains(p as u64));
            assert(t.no_duplicates()) by {
                assert forall|i: int, j: int| 0 <= i < t.len() && 0 <= j < t.len() && i != j implies t[i]
                    != t[j] by {
                    if i == at {
                        if j < at {
                            assert(old_t[j] < p);
                        } else {
                            assert(old_t[j - 1] < p);
                        }
                    } else if j == at {
                        if i < at {
                            assert(old_t[i] < p);
                        } else {
                            assert(old_t[i - 1] < p);
                        }
                    } else {
                        let oi = if i < at { i } else { i - 1 };
                        let oj = if j < at { j } else { j - 1 };
                        assert(old_t[oi] != old_t[oj]);
                    }
                }
            }
            assert forall|q: u64| q < p + 1 implies #[trigger] t.contains(q) by {
                if q == p {
                    assert(t[at as int] == p as u64);
                } else {
                    assert(old_t.contains(q));
                    let w = choose|w: int| 0 <= w < old_t.len() && old_t[w] == q;
                    if w < at {
                        assert(t[w] == q);
                    } else {
                        assert(t[w + 1] == q);
                    }
                }
            }
        }
        p = p + 1;
    }
    table
}

} // verus!
