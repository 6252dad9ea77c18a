//! Two-sided binary prefix search over a sorted list of string keys.
//!
//! One call bounds the matching range from the left, a second from the
//! right; in a sorted list the keys a query begins are contiguous, so the
//! two bounds delimit exactly the matches.
use vstd::prelude::*;
use crate::strings::lemma_between_has_prefix;
use crate::strings::lemma_lex_asymmetric;
use crate::strings::lemma_lex_transitive;
use crate::strings::lemma_prefix_le;
use crate::strings::lex_le;
use crate::strings::lex_lt;
use crate::strings::str_lt;
use crate::strings::str_starts_with;

verus! {

/// The keys stand in ascending lexicographic order.
pub open spec fn keys_sorted(keys: Seq<String>) -> bool {
    forall|i: int, j: int| 0 <= i <= j < keys.len() ==> lex_le(#[trigger] keys[i]@, #[trigger] keys[j]@)
}

/// In a sorted list the keys that `q` begins form a contiguous block:
/// every key between two matches is a match.
pub proof fn lemma_matches_contiguous(keys: Seq<String>, q: Seq<char>, l: int, m: int, r: int)
    requires
        keys_sorted(keys),
        0 <= l <= m <= r < keys.len(),
        q.is_prefix_of(keys[l]@),
        q.is_prefix_of(keys[r]@),
    ensures
        q.is_prefix_of(keys[m]@),
{
    lemma_prefix_le(q, keys[l]@);
    assert(lex_le(keys[l]@, keys[m]@));
    assert(lex_le(keys[m]@, keys[r]@));
    assert(!lex_lt(keys[m]@, q)) by {
        if lex_lt(keys[m]@, q) && lex_lt(keys[l]@, keys[m]@) {
            lemma_lex_transitive(keys[l]@, keys[m]@, q);
        }
    }
    assert(!lex_lt(keys[r]@, keys[m]@)) by {
        lemma_lex_asymmetric(keys[m]@, keys[r]@);
    }
    lemma_between_has_prefix(q, keys[m]@, keys[r]@);
}

/// A filter whose predicate holds exactly on one contiguous index range
/// keeps exactly that range.
pub proof fn lemma_filter_contiguous<A>(s: Seq<A>, pred: spec_fn(A) -> bool, lo: int, hi: int)
    requires
        0 <= lo <= hi <= s.len(),
        forall|i: int| 0 <= i < s.len() ==> (pred(#[trigger] s[i]) <==> lo <= i < hi),
    ensures
        s.filter(pred) =~= s.subrange(lo, hi),
    decreases s.len(),
{
    reveal(Seq::filter);
    if lo == hi {
        assert(s.all(|x: A| !pred(x))) by {
            assert forall|i: int| 0 <= i < s.len() implies !pred(s[i]) by {}
        }
        s.lemma_all_neg_filter_empty(pred);
    } else if hi == s.len() {
        lemma_filter_contiguous(s.drop_last(), pred, lo, hi - 1);
        assert(s.subrange(lo, hi) =~= s.drop_last().subrange(lo, hi - 1).push(s.last()));
    } else {
        lemma_filter_contiguous(s.drop_last(), pred, lo, hi);
        assert(s.drop_last().subrange(lo, hi) =~= s.subrange(lo, hi));
    }
}

/// Binary search for the edge of the block of keys that `search_key`
/// begins. With `right` false the lowest matching index comes back, with
/// `right` true the highest; `-1` means no key matches. The answer is
/// meaningful only over sorted keys — on an unsorted list some matching
/// index (or `-1`) is returned, with no claim which.
pub fn bisect_search_str_key(list: &Vec<String>, search_key: &str, right: bool) -> (idx: i32)
    requires
        list@.len() <= 0x7fff_ffff,
    ensures
        -1 <= idx < list@.len(),
        idx >= 0 ==> search_key@.is_prefix_of(list@[idx as int]@),
        keys_sorted(list@) && idx == -1 ==> forall|i: int|
            0 <= i < list@.len() ==> !search_key@.is_prefix_of(#[trigger] list@[i]@),
        keys_sorted(list@) && idx >= 0 && !right ==> forall|i: int|
            0 <= i < idx ==> !search_key@.is_prefix_of(#[trigger] list@[i]@),
        keys_sorted(list@) && idx >= 0 && right ==> forall|i: int|
            idx < i < list@.len() ==> !search_key@.is_prefix_of(#[trigger] list@[i]@),
{
    let n = list.len();
    let mut lo: usize = 0;
    let mut hi: usize = n;
    let mut idx: i32 = -1;
    while lo < hi
        invariant
            lo <= hi <= n,
            n == list@.len(),
            n <= 0x7fff_ffff,
            idx == -1 || (0 <= idx < n && search_key@.is_prefix_of(list@[idx as int]@)),
            keys_sorted(list@) && !right ==> forall|i: int|
                0 <= i < lo ==> lex_lt(#[trigger] list@[i]@, search_key@),
            keys_sorted(list@) && !right && idx == -1 ==> forall|i: int|
                hi <= i < n ==> !search_key@.is_prefix_of(#[trigger] list@[i]@),
            keys_sorted(list@) && !right && idx >= 0 ==> hi <= idx && forall|i: int|
                hi <= i < idx ==> !search_key@.is_prefix_of(#[trigger] list@[i]@),
            keys_sorted(list@) && right ==> forall|i: int|
                hi <= i < n ==> !search_key@.is_prefix_of(#[trigger] list@[i]@),
            keys_sorted(list@) && right && idx == -1 ==> forall|i: int|
                0 <= i < lo ==> !search_key@.is_prefix_of(#[trigger] list@[i]@),
            keys_sorted(list@) && right && idx >= 0 ==> idx < lo && forall|i: int|
                idx < i < lo ==> !search_key@.is_prefix_of(#[trigger] list@[i]@),
        decreases hi - lo,
    {
        let mid = lo + (hi - lo) / 2;
        if str_starts_with(list[mid].as_str(), search_key) {
            idx = mid as i32;
            if right {
                lo = mid + 1;
            } else {
                hi = mid;
            }
        } else if str_lt(list[mid].as_str(), search_key) {
            proof {
                if keys_sorted(list@) {
                    assert forall|i: int| 0 <= i <= mid implies !search_key@.is_prefix_of(
                        #[trigger] list@[i]@,
                    ) && lex_lt(list@[i]@, search_key@) by {
                        assert(lex_le(list@[i]@, list@[mid as int]@));
                        lemma_lex_transitive(list@[i]@, list@[mid as int]@, search_key@);
                        lemma_prefix_le(search_key@, list@[i]@);
                    }
                }
            }
            lo = mid + 1;
        } else {
            proof {
                if keys_sorted(list@) {
                    assert forall|i: int| mid <= i < n implies !search_key@.is_prefix_of(
                        #[trigger] list@[i]@,
                    ) by {
                        if search_key@.is_prefix_of(list@[i]@) {
                            assert(lex_le(list@[mid as int]@, list@[i]@));
                            lemma_lex_asymmetric(list@[mid as int]@, list@[i]@);
                            lemma_between_has_prefix(search_key@, list@[mid as int]@, list@[i]@);
                        }
                    }
                }
            }
            hi = mid;
        }
    }
    proof {
        if keys_sorted(list@) && !right {
            assert forall|i: int| 0 <= i < lo implies !search_key@.is_prefix_of(
                #[trigger] list@[i]@,
            ) by {
                lemma_prefix_le(search_key@, list@[i]@);
            }
        }
    }
    idx
}

} // verus!
