//! Picking an article's related peers from its similarity scores.
//!
//! Candidates are sorted by similarity, highest first; the top three are
//! kept, and of those only the ones whose similarity clears the minimum.
//! The cutoff is an inclusive lower bound: a score exactly at the
//! minimum is kept.  Scores are in signed millionths of cosine
//! similarity.

use vstd::prelude::*;

verus! {

/// One whole unit of similarity, in millionths: cosine 1.0.
pub const SIMILARITY_SCALE: i64 = 1_000_000;

/// The least similarity that still relates two articles: cosine 0.4.
pub const MIN_SIMILARITY: i64 = 400_000;

/// How many related articles are kept per article.
pub const RELATED_LIMIT: usize = 3;

/// The cutoff rule: an inclusive lower bound.
pub open spec fn above_threshold(sim: i64) -> bool {
    sim >= MIN_SIMILARITY
}

/// Law: the cutoff is inclusive.  A score exactly at the minimum is
/// kept; one just below it is dropped.
pub proof fn lemma_threshold_inclusive()
    ensures
        above_threshold(MIN_SIMILARITY),
        !above_threshold((MIN_SIMILARITY - 1) as i64),
{
}

/// Insert one candidate into a list already sorted by descending
/// similarity, after the entries that score strictly higher.
pub open spec fn insert_desc(s: Seq<(u64, i64)>, x: (u64, i64)) -> Seq<(u64, i64)>
    decreases s.len(),
{
    if s.len() == 0 {
        seq![x]
    } else if s.first().1 > x.1 {
        seq![s.first()] + insert_desc(s.drop_first(), x)
    } else {
        seq![x] + s
    }
}

/// The candidates sorted by descending similarity; candidates with
/// equal scores keep their original order.
pub open spec fn sort_desc(s: Seq<(u64, i64)>) -> Seq<(u64, i64)>
    decreases s.len(),
{
    if s.len() == 0 {
        Seq::empty()
    } else {
        insert_desc(sort_desc(s.drop_first()), s.first())
    }
}

/// The first entries, at most [`RELATED_LIMIT`] of them.
pub open spec fn take_limit(s: Seq<(u64, i64)>) -> Seq<(u64, i64)> {
    if s.len() <= RELATED_LIMIT {
        s
    } else {
        s.take(RELATED_LIMIT as int)
    }
}

/// The peers among the entries whose similarity clears the cutoff.
pub open spec fn keep_above(s: Seq<(u64, i64)>) -> Seq<u64>
    decreases s.len(),
{
    if s.len() == 0 {
        Seq::empty()
    } else {
        let rest = keep_above(s.drop_first());
        if above_threshold(s.first().1) {
            seq![s.first().0] + rest
        } else {
            rest
        }
    }
}

/// The whole selection: sort descending, keep the top three, drop what
/// is under the cutoff.
pub open spec fn select_spec(cands: Seq<(u64, i64)>) -> Seq<u64> {
    keep_above(take_limit(sort_desc(cands)))
}

/// Inserting at the position a scan found is the same as the spec's
/// recursive insertion.
proof fn lemma_insert_desc_at(s: Seq<(u64, i64)>, x: (u64, i64), pos: int)
    requires
        0 <= pos <= s.len(),
        forall|j: int| 0 <= j < pos ==> (#[trigger] s[j]).1 > x.1,
        pos == s.len() || !(s[pos].1 > x.1),
    ensures
        insert_desc(s, x) == s.insert(pos, x),
    decreases s.len(),
{
    if s.len() == 0 {
        assert(insert_desc(s, x) =~= s.insert(0, x));
    } else if pos == 0 {
        assert(insert_desc(s, x) == seq![x] + s);
        assert(seq![x] + s =~= s.insert(0, x));
    } else {
        assert(s[0].1 > x.1);
        let rest = s.drop_first();
        assert(forall|j: int| 0 <= j < pos - 1 ==> (#[trigger] rest[j]).1 > x.1);
        if pos < s.len() {
            assert(rest[pos - 1] == s[pos]);
        }
        lemma_insert_desc_at(rest, x, pos - 1);
        assert(insert_desc(s, x) == seq![s.first()] + rest.insert(pos - 1, x));
        assert(seq![s.first()] + rest.insert(pos - 1, x) =~= s.insert(pos, x));
    }
}

/// Insert one candidate into a vector sorted by descending similarity.
fn insert_by_score(r: &mut Vec<(u64, i64)>, x: (u64, i64))
    ensures
        final(r)@ == insert_desc(old(r)@, x),
{
    let mut pos: usize = 0;
    while pos < r.len() && r[pos].1 > x.1
        invariant
            pos <= r@.len(),
            r@ == old(r)@,
            forall|j: int| 0 <= j < pos ==> (#[trigger] r@[j]).1 > x.1,
        decreases r@.len() - pos,
    {
        pos = pos + 1;
    }
    proof {
        lemma_insert_desc_at(r@, x, pos as int);
    }
    r.insert(pos, x);
}

/// The candidates sorted by descending similarity, stably.
pub fn sort_candidates(cands: &Vec<(u64, i64)>) -> (r: Vec<(u64, i64)>)
    ensures
        r@ == sort_desc(cands@),
{
    let mut r: Vec<(u64, i64)> = Vec::new();
    let mut i: usize = cands.len();
    proof {
        assert(cands@.skip(cands@.len() as int) =~= Seq::<(u64, i64)>::empty());
        assert(r@ =~= sort_desc(cands@.skip(cands@.len() as int)));
    }
    while i > 0
        invariant
            i <= cands@.len(),
            r@ == sort_desc(cands@.skip(i as int)),
        decreases i,
    {
        i = i - 1;
        let x = cands[i];
        insert_by_score(&mut r, x);
        proof {
            let t = cands@.skip(i as int);
            assert(t.first() == cands@[i as int]);
            assert(t.drop_first() =~= cands@.skip(i as int + 1));
            assert(sort_desc(t) == insert_desc(sort_desc(cands@.skip(i as int + 1)), t.first()));
        }
    }
    proof {
        assert(cands@.skip(0) =~= cands@);
    }
    r
}

/// Pick the related peers: the top three by similarity, cut at the
/// inclusive minimum, in descending score order.
pub fn select_related(cands: &Vec<(u64, i64)>) -> (r: Vec<u64>)
    ensures
        r@ == select_spec(cands@),
{
    let sorted = sort_candidates(cands);
    let limit = if sorted.len() < RELATED_LIMIT {
        sorted.len()
    } else {
        RELATED_LIMIT
    };
    let ghost t = take_limit(sorted@);
    proof {
        assert(t =~= sorted@.take(limit as int));
    }
    let mut r: Vec<u64> = Vec::new();
    let mut k: usize = 0;
    proof {
        assert(t.skip(0) =~= t);
    }
    while k < limit
        invariant
            k <= limit <= sorted@.len(),
            t == take_limit(sorted@),
            t =~= sorted@.take(limit as int),
            r@ + keep_above(t.skip(k as int)) == keep_above(t),
        decreases limit - k,
    {
        let x = sorted[k];
        proof {
            let rem = t.skip(k as int);
            assert(rem.first() == t[k as int]);
            assert(t[k as int] == sorted@[k as int]);
            assert(rem.drop_first() =~= t.skip(k as int + 1));
            if above_threshold(x.1) {
                assert(keep_above(rem) == seq![x.0] + keep_above(t.skip(k as int + 1)));
                assert(r@.push(x.0) + keep_above(t.skip(k as int + 1)) =~= r@ + keep_above(rem));
            }
        }
        if x.1 >= MIN_SIMILARITY {
            r.push(x.0);
        }
        k = k + 1;
    }
    proof {
        assert(t.skip(limit as int) =~= Seq::<(u64, i64)>::empty());
        assert(r@ + keep_above(t.skip(limit as int)) =~= r@);
    }
    r
}

} // verus!
