//! Subsequence fuzzy matching of a query against an app's lowercase name.

use vstd::prelude::*;
use vstd::utf8::encode_utf8;

use crate::text::{chars_of, find, find_from, lemma_find};

verus! {

/// Characters after which a match counts as the start of a word.
pub open spec fn is_word_start_sep(c: char) -> bool {
    c == ' ' || c == '-' || c == '_' || c == '.' || c == '('
}

/// Bonus for matching target character `i`, where `prev_next` is the index
/// just past the previous match: the start of the name, a consecutive run,
/// or the first letter of a word.
pub open spec fn bonus(t: Seq<char>, i: int, prev_next: Option<int>) -> int {
    if i == 0 {
        12
    } else if prev_next == Some(i) {
        8
    } else if is_word_start_sep(t[i - 1]) {
        10
    } else {
        0
    }
}

/// Greedy left-to-right matching of `q` in `t` from index `from`: each query
/// character takes the first equal target character after the previous one.
/// The sum of the bonuses, or `None` when some character finds no partner.
pub open spec fn bonus_sum(q: Seq<char>, t: Seq<char>, from: int, prev_next: Option<int>) -> Option<
    int,
>
    decreases q.len(),
{
    if q.len() == 0 {
        Some(0)
    } else {
        match find(t.skip(from), q[0]) {
            None => None,
            Some(j) => match bonus_sum(q.drop_first(), t, from + j + 1, Some(from + j + 1)) {
                Some(b) => Some(bonus(t, from + j, prev_next) + b),
                None => None,
            },
        }
    }
}

/// Index of the first matched character (0 for an empty query).
pub open spec fn first_hit_index(q: Seq<char>, t: Seq<char>) -> int {
    if q.len() == 0 {
        0
    } else {
        match find(t, q[0]) {
            Some(i) => i,
            None => 0,
        }
    }
}

/// Byte offset of the first matched character in the name's UTF-8 text
/// (0 for an empty query).
pub open spec fn first_hit(q: Seq<char>, t: Seq<char>) -> int {
    encode_utf8(t.take(first_hit_index(q, t))).len() as int
}

/// The score `score` gives: the bonuses, plus up to 20 for an early first
/// hit (20 less its byte offset), minus one point per 8 bytes of the
/// name's UTF-8 length.
pub open spec fn spec_score(q: Seq<char>, t: Seq<char>) -> Option<int> {
    match bonus_sum(q, t, 0, None) {
        None => None,
        Some(b) => Some(
            b + 20 - (if first_hit(q, t) < 20 { first_hit(q, t) } else { 20 })
                - encode_utf8(t).len() as int / 8,
        ),
    }
}

/// `q` is a subsequence of `t`: its characters appear in `t` in order.
pub open spec fn is_subsequence(q: Seq<char>, t: Seq<char>) -> bool {
    exists|idx: Seq<int>| is_embedding(q, t, idx)
}

/// `idx` places each character of `q` at an equal character of `t`,
/// at strictly increasing positions.
pub open spec fn is_embedding(q: Seq<char>, t: Seq<char>, idx: Seq<int>) -> bool {
    &&& idx.len() == q.len()
    &&& forall|k: int| 0 <= k < q.len() ==> 0 <= #[trigger] idx[k] < t.len() && t[idx[k]] == q[k]
    &&& forall|k: int, l: int| 0 <= k < l < q.len() ==> #[trigger] idx[k] < #[trigger] idx[l]
}

proof fn lemma_bonus_nonneg(q: Seq<char>, t: Seq<char>, from: int, prev_next: Option<int>)
    requires
        0 <= from <= t.len(),
    ensures
        bonus_sum(q, t, from, prev_next) matches Some(b) ==> 0 <= b <= 12 * q.len(),
        bonus_sum(q, t, from, prev_next) is Some ==> q.len() <= t.len() - from,
    decreases q.len(),
{
    if q.len() > 0 {
        lemma_find(t.skip(from), q[0]);
        if let Some(j) = find(t.skip(from), q[0]) {
            lemma_bonus_nonneg(q.drop_first(), t, from + j + 1, Some(from + j + 1));
        }
    }
}

/// Greedy matching succeeds exactly when some embedding exists: forward,
/// the greedy positions are one; backward, greedy never passes a
/// position any embedding of the remainder could use.
proof fn lemma_greedy_complete(q: Seq<char>, t: Seq<char>, from: int, prev_next: Option<int>)
    requires
        0 <= from <= t.len(),
    ensures
        bonus_sum(q, t, from, prev_next) is Some <==> exists|idx: Seq<int>|
            is_embedding(q, t, idx) && (q.len() > 0 ==> idx[0] >= from),
    decreases q.len(),
{
    if q.len() == 0 {
        let e: Seq<int> = seq![];
        assert(is_embedding(q, t, e));
    } else {
        let s = t.skip(from);
        lemma_find(s, q[0]);
        match find(s, q[0]) {
            None => {
                if exists|idx: Seq<int>| is_embedding(q, t, idx) && idx[0] >= from {
                    let idx = choose|idx: Seq<int>| is_embedding(q, t, idx) && idx[0] >= from;
                    assert(s[idx[0] - from] == t[idx[0]]);
                }
            },
            Some(j) => {
                let i = from + j;
                assert(t[i] == s[j]);
                lemma_greedy_complete(q.drop_first(), t, i + 1, Some(i + 1));
                let tail = q.drop_first();
                if bonus_sum(q, t, from, prev_next) is Some {
                    let idx2 = choose|idx: Seq<int>|
                        is_embedding(tail, t, idx) && (tail.len() > 0 ==> idx[0] >= i + 1);
                    let idx = seq![i] + idx2;
                    assert forall|k: int| 0 <= k < q.len() implies 0 <= #[trigger] idx[k] < t.len()
                        && t[idx[k]] == q[k] by {
                        if k > 0 {
                            assert(idx[k] == idx2[k - 1]);
                            assert(q[k] == tail[k - 1]);
                        }
                    }
                    assert forall|k: int, l: int| 0 <= k < l < q.len() implies #[trigger] idx[k]
                        < #[trigger] idx[l] by {
                        if k > 0 {
                            assert(idx[k] == idx2[k - 1]);
                            assert(idx[l] == idx2[l - 1]);
                        } else {
                            assert(idx[l] == idx2[l - 1]);
                            if l > 1 {
                                assert(idx2[0] < idx2[l - 1]);
                            }
                        }
                    }
                    assert(is_embedding(q, t, idx));
                }
                if exists|idx: Seq<int>| is_embedding(q, t, idx) && idx[0] >= from {
                    let idx = choose|idx: Seq<int>| is_embedding(q, t, idx) && idx[0] >= from;
                    // greedy took the first partner at or after `from`, so `idx[0] >= i`
                    if idx[0] < i {
                        assert(s[idx[0] - from] == t[idx[0]]);
                    }
                    let idx2 = idx.drop_first();
                    assert forall|k: int| 0 <= k < tail.len() implies 0 <= #[trigger] idx2[k]
                        < t.len() && t[idx2[k]] == tail[k] by {
                        assert(idx2[k] == idx[k + 1]);
                        assert(tail[k] == q[k + 1]);
                    }
                    assert forall|k: int, l: int| 0 <= k < l < tail.len() implies #[trigger] idx2[k]
                        < #[trigger] idx2[l] by {
                        assert(idx2[k] == idx[k + 1]);
                        assert(idx2[l] == idx[l + 1]);
                    }
                    assert(is_embedding(tail, t, idx2));
                    if tail.len() > 0 {
                        assert(idx[0] < idx[1]);
                        assert(idx2[0] >= i + 1);
                    }
                }
            },
        }
    }
}

/// A score lies between minus an eighth of the name's byte length and
/// twelve points per character of the name plus twenty.
pub proof fn lemma_score_bounds(q: Seq<char>, t: Seq<char>)
    ensures
        spec_score(q, t) matches Some(v) ==> -(encode_utf8(t).len() as int / 8) <= v <= 12 * t.len()
            + 20,
{
    lemma_bonus_nonneg(q, t, 0, None);
    if q.len() > 0 {
        lemma_find(t, q[0]);
    }
    assert(first_hit(q, t) >= 0);
    if let Some(b) = bonus_sum(q, t, 0, None) {
        assert(12 * q.len() <= 12 * t.len());
    }
}

/// Subsequence fuzzy match. `None` when `query` is not a subsequence of
/// `target_lower`; otherwise a score where higher is better. Both inputs
/// are meant to be lowercase already.
pub fn score(query: &str, target_lower: &str) -> (r: Option<i32>)
    requires
        target_lower@.len() * 12 + 20 <= i32::MAX,
        encode_utf8(target_lower@).len() <= i32::MAX,
    ensures
        r is Some <==> is_subsequence(query@, target_lower@),
        match r {
            Some(v) => spec_score(query@, target_lower@) == Some(v as int),
            None => spec_score(query@, target_lower@) is None,
        },
{
    let q = chars_of(query);
    let t = chars_of(target_lower);
    let ghost qs = q@;
    let ghost ts = t@;
    proof {
        lemma_greedy_complete(qs, ts, 0, None);
        if exists|idx: Seq<int>| is_embedding(qs, ts, idx) {
            let idx = choose|idx: Seq<int>| is_embedding(qs, ts, idx);
            if qs.len() > 0 {
                assert(idx[0] >= 0);
            }
        }
        lemma_bonus_nonneg(qs, ts, 0, None);
        assert(qs.skip(0) =~= qs);
        assert(bonus_sum(qs, ts, 0, None) is Some <==> is_subsequence(qs, ts));
    }
    let mut total: i32 = 0;
    let mut pos: usize = 0;
    let mut prev_next: Option<usize> = None;
    let mut first: Option<usize> = None;
    let mut k: usize = 0;
    while k < q.len()
        invariant
            qs == q@,
            ts == t@,
            qs == query@,
            ts == target_lower@,
            bonus_sum(qs, ts, 0, None) is Some <==> is_subsequence(qs, ts),
            k <= qs.len(),
            pos <= ts.len(),
            k <= pos,
            0 <= total <= 12 * k,
            ts.len() * 12 + 20 <= i32::MAX,
            bonus_sum(qs, ts, 0, None) == (match bonus_sum(qs.skip(k as int), ts, pos as int,
                match prev_next {
                    Some(p) => Some(p as int),
                    None => None::<int>,
                },
            ) {
                Some(b) => Some(b + total),
                None => None::<int>,
            }),
            k == 0 ==> first is None && pos == 0 && prev_next is None,
            k > 0 ==> (first matches Some(f) && f == first_hit_index(qs, ts) && f < ts.len()),
        decreases q.len() - k,
    {
        let c = q[k];
        let ghost rest = qs.skip(k as int);
        assert(rest[0] == c);
        assert(rest.drop_first() =~= qs.skip(k + 1));
        match find_from(t.as_slice(), pos, c) {
            None => {
                assert(bonus_sum(rest, ts, pos as int, match prev_next {
                    Some(p) => Some(p as int),
                    None => None::<int>,
                }) is None);
                return None;
            },
            Some(i) => {
                let ghost pn = match prev_next {
                    Some(p) => Some(p as int),
                    None => None::<int>,
                };
                let b: i32 = if i == 0 {
                    12
                } else if prev_next == Some(i) {
                    8
                } else {
                    let p = t[i - 1];
                    if p == ' ' || p == '-' || p == '_' || p == '.' || p == '(' {
                        10
                    } else {
                        0
                    }
                };
                assert(b == bonus(ts, i as int, pn));
                proof {
                    if k == 0 {
                        assert(ts.skip(0) =~= ts);
                    }
                }
                total = total + b;
                if first.is_none() {
                    first = Some(i);
                }
                prev_next = Some(i + 1);
                pos = i + 1;
            },
        }
        k = k + 1;
    }
    proof {
        assert(qs.skip(k as int).len() == 0);
    }
    let f = match first {
        Some(f) => f,
        None => 0,
    };
    let capped = crate::text::utf8_prefix_len_capped(t.as_slice(), f, 20) as i32;
    let len = target_lower.len();
    total = total + 20 - capped;
    total = total - (len as i32) / 8;
    Some(total)
}

} // verus!
