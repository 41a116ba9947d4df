//! Case-insensitive fuzzy matching: a query matches a service name when its
//! characters appear there in order, not necessarily adjacent.

use vstd::prelude::*;
use crate::text::to_lower;

verus! {

/// Whether `pos` witnesses a match of `q` in `h`: one strictly increasing
/// position per query character, at which the case-folded characters agree.
pub open spec fn match_at(q: Seq<char>, h: Seq<char>, pos: Seq<int>) -> bool {
    &&& pos.len() == q.len()
    &&& forall|i: int| 0 <= i < pos.len() ==> 0 <= #[trigger] pos[i] < h.len()
    &&& forall|i: int| 0 <= i < pos.len() ==> to_lower(h[#[trigger] pos[i]]) == to_lower(q[i])
    &&& forall|i: int| 0 <= i < pos.len() - 1 ==> #[trigger] pos[i] < pos[i + 1]
}

/// Whether every character of `q` can be matched, in order and
/// case-insensitively, to strictly increasing positions of `h`.
pub open spec fn subseq_match(q: Seq<char>, h: Seq<char>) -> bool {
    exists|pos: Seq<int>| match_at(q, h, pos)
}

/// The greedy leftmost scan that the matcher runs.
pub open spec fn subseq_greedy(q: Seq<char>, h: Seq<char>) -> bool
    decreases q.len() + h.len(),
{
    if q.len() == 0 {
        true
    } else if h.len() == 0 {
        false
    } else if to_lower(h[0]) == to_lower(q[0]) {
        subseq_greedy(q.drop_first(), h.drop_first())
    } else {
        subseq_greedy(q, h.drop_first())
    }
}

/// The greedy leftmost scan finds a match exactly when one exists.
#[verifier::rlimit(100)]
pub proof fn lemma_greedy_iff(q: Seq<char>, h: Seq<char>)
    ensures
        subseq_greedy(q, h) == subseq_match(q, h),
    decreases q.len() + h.len(),
{
    if q.len() == 0 {
        assert(match_at(q, h, Seq::empty()));
    } else if h.len() == 0 {
        assert(!subseq_match(q, h)) by {
            if subseq_match(q, h) {
                let pos = choose|pos: Seq<int>| match_at(q, h, pos);
                assert(0 <= pos[0] < h.len());
            }
        }
    } else if to_lower(h[0]) == to_lower(q[0]) {
        lemma_greedy_iff(q.drop_first(), h.drop_first());
        if subseq_greedy(q, h) {
            let ppos = choose|pos: Seq<int>| match_at(q.drop_first(), h.drop_first(), pos);
            let pos = Seq::new(q.len(), |i: int| if i == 0 { 0 } else { ppos[i - 1] + 1 });
            assert(match_at(q, h, pos));
        }
        if subseq_match(q, h) {
            let pos = choose|pos: Seq<int>| match_at(q, h, pos);
            let ppos = Seq::new((pos.len() - 1) as nat, |i: int| pos[i + 1] - 1);
            assert forall|i: int| 0 <= i < ppos.len() implies 0 <= #[trigger] ppos[i]
                < h.drop_first().len() && to_lower(h.drop_first()[ppos[i]]) == to_lower(
                q.drop_first()[i],
            ) by {
                assert(pos[i] < pos[i + 1]);
                assert(0 <= pos[i]);
                assert(to_lower(h[pos[i + 1]]) == to_lower(q[i + 1]));
            }
            assert forall|i: int| 0 <= i < ppos.len() - 1 implies #[trigger] ppos[i] < ppos[i
                + 1] by {
                assert(pos[i + 1] < pos[i + 2]);
            }
            assert(match_at(q.drop_first(), h.drop_first(), ppos));
        }
    } else {
        lemma_greedy_iff(q, h.drop_first());
        if subseq_greedy(q, h) {
            let ppos = choose|pos: Seq<int>| match_at(q, h.drop_first(), pos);
            let pos = Seq::new(ppos.len(), |i: int| ppos[i] + 1);
            assert(match_at(q, h, pos));
        }
        if subseq_match(q, h) {
            let pos = choose|pos: Seq<int>| match_at(q, h, pos);
            assert(to_lower(h[pos[0]]) == to_lower(q[0]));
            assert(pos[0] != 0);
            assert forall|i: int| 0 <= i < pos.len() implies 1 <= #[trigger] pos[i] by {
                if i > 0 {
                    assert(pos[i - 1] < pos[i]);
                    assert(0 <= pos[i - 1]);
                }
            }
            let ppos = Seq::new(pos.len(), |i: int| pos[i] - 1);
            assert(match_at(q, h.drop_first(), ppos));
        }
    }
}

/// An empty query matches every haystack.
pub proof fn lemma_subsequence_empty(h: Seq<char>)
    ensures
        subseq_match(Seq::empty(), h),
{
    assert(match_at(Seq::empty(), h, Seq::empty()));
}

/// Whether `needle` is a case-insensitive subsequence of `haystack`.
/// Case folding is ASCII-only: letters outside A through Z compare by their
/// exact scalar value.
pub fn subsequence(needle: &str, haystack: &str) -> (r: bool)
    ensures
        r == subseq_match(needle@, haystack@),
{
    let q = crate::text::str_chars(needle);
    let h = crate::text::str_chars(haystack);
    proof {
        lemma_greedy_iff(needle@, haystack@);
        assert(q@.skip(0) =~= q@);
        assert(h@.skip(0) =~= h@);
    }
    let mut i: usize = 0;
    let mut j: usize = 0;
    loop
        invariant
            q@ == needle@,
            h@ == haystack@,
            i <= q.len(),
            j <= h.len(),
            subseq_greedy(needle@, haystack@) == subseq_greedy(q@.skip(i as int), h@.skip(
                j as int,
            )),
            subseq_match(needle@, haystack@) == subseq_greedy(needle@, haystack@),
        decreases h.len() - j,
    {
        if i == q.len() {
            assert(q@.skip(i as int).len() == 0);
            return true;
        }
        if j == h.len() {
            assert(h@.skip(j as int).len() == 0);
            assert(q@.skip(i as int).len() > 0);
            return false;
        }
        let ghost qs = q@.skip(i as int);
        let ghost hs = h@.skip(j as int);
        proof {
            assert(qs[0] == q@[i as int]);
            assert(hs[0] == h@[j as int]);
            assert(qs.drop_first() =~= q@.skip(i + 1));
            assert(hs.drop_first() =~= h@.skip(j + 1));
        }
        if crate::text::lower_exec(q[i]) == crate::text::lower_exec(h[j]) {
            i = i + 1;
            j = j + 1;
        } else {
            j = j + 1;
        }
    }
}

} // verus!
