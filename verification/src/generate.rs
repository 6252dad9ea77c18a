//! Collision-avoiding generation of a short flag from a long option name.
//!
//! The probe is deterministic and two-phased: first `-` followed by ever
//! longer prefixes of the name, then — only once every such prefix is
//! taken — `-` followed by prefixes of every second character of the name.
use vstd::prelude::*;
use vstd::string::*;
use crate::flagset::FlagSet;

verus! {

/// Why no short flag was produced.
#[derive(Clone, Copy, Debug, PartialEq, Eq, Structural)]
pub enum GenError {
    /// The base name was empty.
    EmptyName,
    /// Every candidate of both probing phases was already claimed.
    Exhausted,
}

/// The stride-1 candidates: `-` followed by each non-empty prefix of the
/// name, shortest first.
pub open spec fn stride1_cands(name: Seq<char>) -> Seq<Seq<char>> {
    Seq::new(name.len(), |k: int| seq!['-'] + name.take(k + 1))
}

/// Every second character of the name: the 1st, the 3rd, the 5th, and so on.
pub open spec fn every_other(name: Seq<char>) -> Seq<char> {
    Seq::new((name.len() + 1) / 2, |i: int| name[2 * i])
}

/// The stride-2 candidates: `-` followed by each non-empty prefix of
/// `every_other(name)`, shortest first.
pub open spec fn stride2_cands(name: Seq<char>) -> Seq<Seq<char>> {
    Seq::new(every_other(name).len(), |k: int| seq!['-'] + every_other(name).take(k + 1))
}

/// The first candidate in the list that is not yet claimed.
pub open spec fn first_free(cands: Seq<Seq<char>>, used: Set<Seq<char>>) -> Option<Seq<char>>
    decreases cands.len(),
{
    if cands.len() == 0 {
        None
    } else if !used.contains(cands[0]) {
        Some(cands[0])
    } else {
        first_free(cands.drop_first(), used)
    }
}

/// The short flag the two-phase probe yields, when there is one: the first
/// free stride-1 candidate, or failing that the first free stride-2
/// candidate.
pub open spec fn gen_short_spec(name: Seq<char>, used: Set<Seq<char>>) -> Option<Seq<char>> {
    if first_free(stride1_cands(name), used) is Some {
        first_free(stride1_cands(name), used)
    } else {
        first_free(stride2_cands(name), used)
    }
}

/// `first_free` returns the candidate at the first free position.
pub proof fn lemma_first_free_at(cands: Seq<Seq<char>>, used: Set<Seq<char>>, k: int)
    requires
        0 <= k < cands.len(),
        !used.contains(cands[k]),
        forall|j: int| 0 <= j < k ==> used.contains(#[trigger] cands[j]),
    ensures
        first_free(cands, used) == Some(cands[k]),
    decreases k,
{
    if k > 0 {
        lemma_first_free_at(cands.drop_first(), used, k - 1);
    }
}

/// When every candidate is claimed, `first_free` finds none.
pub proof fn lemma_first_free_all_used(cands: Seq<Seq<char>>, used: Set<Seq<char>>)
    requires
        forall|j: int| 0 <= j < cands.len() ==> used.contains(#[trigger] cands[j]),
    ensures
        first_free(cands, used) is None,
    decreases cands.len(),
{
    if cands.len() > 0 {
        lemma_first_free_all_used(cands.drop_first(), used);
    }
}

/// What `first_free` yields is a free member of the candidate list.
pub proof fn lemma_first_free_member(cands: Seq<Seq<char>>, used: Set<Seq<char>>)
    ensures
        match first_free(cands, used) {
            Some(c) => !used.contains(c) && cands.contains(c),
            None => true,
        },
    decreases cands.len(),
{
    if cands.len() > 0 && used.contains(cands[0]) {
        lemma_first_free_member(cands.drop_first(), used);
        match first_free(cands.drop_first(), used) {
            Some(c) => {
                let i = choose|i: int|
                    0 <= i < cands.drop_first().len() && cands.drop_first()[i] == c;
                assert(cands[i + 1] == c);
            },
            None => {},
        }
    }
}

/// A generated flag is unclaimed, starts with `-`, and is at most one
/// character longer than the name it was derived from.
pub proof fn lemma_gen_short_shape(name: Seq<char>, used: Set<Seq<char>>)
    ensures
        match gen_short_spec(name, used) {
            Some(c) => !used.contains(c) && 2 <= c.len() <= name.len() + 1 && c[0] == '-',
            None => true,
        },
{
    lemma_first_free_member(stride1_cands(name), used);
    lemma_first_free_member(stride2_cands(name), used);
    match gen_short_spec(name, used) {
        Some(c) => {
            if stride1_cands(name).contains(c) {
                let k = choose|k: int|
                    0 <= k < stride1_cands(name).len() && stride1_cands(name)[k] == c;
                assert(c.len() == k + 2);
            } else {
                let k = choose|k: int|
                    0 <= k < stride2_cands(name).len() && stride2_cands(name)[k] == c;
                assert(c.len() == k + 2);
                assert(k < (name.len() + 1) / 2);
            }
        },
        None => {},
    }
}

/// Against an empty used-set the probe stops at once: the flag is `-`
/// followed by the name's first character.
pub proof fn lemma_generate_short_empty_used(name: Seq<char>)
    requires
        name.len() > 0,
    ensures
        gen_short_spec(name, Set::empty()) == Some(seq!['-', name[0]]),
{
    assert(stride1_cands(name)[0] =~= seq!['-', name[0]]);
    lemma_first_free_at(stride1_cands(name), Set::empty(), 0);
}

/// When some stride-1 candidate is free, the probe returns the shortest
/// free one.
pub proof fn lemma_generate_short_stride1(name: Seq<char>, used: Set<Seq<char>>, k: int)
    requires
        0 <= k < stride1_cands(name).len(),
        !used.contains(stride1_cands(name)[k]),
        forall|j: int| 0 <= j < k ==> used.contains(#[trigger] stride1_cands(name)[j]),
    ensures
        gen_short_spec(name, used) == Some(stride1_cands(name)[k]),
{
    lemma_first_free_at(stride1_cands(name), used, k);
}

/// When every stride-1 candidate is claimed but some stride-2 candidate is
/// free, the probe returns the shortest free stride-2 candidate.
pub proof fn lemma_generate_short_stride2(name: Seq<char>, used: Set<Seq<char>>, k: int)
    requires
        forall|j: int| 0 <= j < stride1_cands(name).len() ==> used.contains(
            #[trigger] stride1_cands(name)[j],
        ),
        0 <= k < stride2_cands(name).len(),
        !used.contains(stride2_cands(name)[k]),
        forall|j: int| 0 <= j < k ==> used.contains(#[trigger] stride2_cands(name)[j]),
    ensures
        gen_short_spec(name, used) == Some(stride2_cands(name)[k]),
{
    lemma_first_free_all_used(stride1_cands(name), used);
    lemma_first_free_at(stride2_cands(name), used, k);
}

/// When both phases exhaust, the probe yields nothing.
pub proof fn lemma_generate_short_exhausted(name: Seq<char>, used: Set<Seq<char>>)
    requires
        forall|j: int| 0 <= j < stride1_cands(name).len() ==> used.contains(
            #[trigger] stride1_cands(name)[j],
        ),
        forall|j: int| 0 <= j < stride2_cands(name).len() ==> used.contains(
            #[trigger] stride2_cands(name)[j],
        ),
    ensures
        gen_short_spec(name, used) is None,
{
    lemma_first_free_all_used(stride1_cands(name), used);
    lemma_first_free_all_used(stride2_cands(name), used);
}

/// Derives a short flag from `name`, guaranteed absent from `used`. Reads
/// `used` only; the caller claims the returned flag.
pub fn generate_short(name: &str, used: &FlagSet) -> (r: Result<String, GenError>)
    ensures
        match r {
            Ok(s) => name@.len() > 0 && gen_short_spec(name@, used@) == Some(s@),
            Err(GenError::EmptyName) => name@.len() == 0,
            Err(GenError::Exhausted) => name@.len() > 0 && gen_short_spec(name@, used@) is None,
        },
{
    let n = name.unicode_len();
    if n == 0 {
        return Err(GenError::EmptyName);
    }
    proof {
        reveal_strlit("-");
    }

    // Phase 1: prefixes of the whole name.
    let mut cand = String::from_str("-");
    assert(cand@ =~= seq!['-'] + name@.take(0));
    let mut k: usize = 0;
    while k < n
        invariant
            k <= n,
            n == name@.len(),
            cand@ == seq!['-'] + name@.take(k as int),
            forall|j: int| 0 <= j < k ==> used@.contains(#[trigger] stride1_cands(name@)[j]),
        decreases n - k,
    {
        cand.append(name.substring_char(k, k + 1));
        assert(cand@ =~= seq!['-'] + name@.take(k + 1));
        if !used.contains(cand.as_str()) {
            proof {
                lemma_first_free_at(stride1_cands(name@), used@, k as int);
            }
            return Ok(cand);
        }
        k += 1;
    }
    proof {
        lemma_first_free_all_used(stride1_cands(name@), used@);
    }

    // Phase 2: prefixes of every second character of the name.
    let m = n / 2 + n % 2;
    assert(m == every_other(name@).len());
    let mut cand = String::from_str("-");
    assert(cand@ =~= seq!['-'] + every_other(name@).take(0));
    let mut j: usize = 0;
    while j < m
        invariant
            j <= m,
            n == name@.len(),
            m == every_other(name@).len(),
            cand@ == seq!['-'] + every_other(name@).take(j as int),
            first_free(stride1_cands(name@), used@) is None,
            forall|i: int| 0 <= i < j ==> used@.contains(#[trigger] stride2_cands(name@)[i]),
        decreases m - j,
    {
        let i = 2 * j;
        cand.append(name.substring_char(i, i + 1));
        assert(cand@ =~= seq!['-'] + every_other(name@).take(j + 1)) by {
            assert(every_other(name@)[j as int] == name@[2 * (j as int)]);
            assert(every_other(name@).take(j + 1) =~= every_other(name@).take(j as int).push(
                every_other(name@)[j as int],
            ));
        }
        if !used.contains(cand.as_str()) {
            proof {
                lemma_first_free_at(stride2_cands(name@), used@, j as int);
            }
            return Ok(cand);
        }
        j += 1;
    }
    proof {
        lemma_first_free_all_used(stride2_cands(name@), used@);
    }
    Err(GenError::Exhausted)
}

} // verus!
