//! Ranking search results by score, best first.

use vstd::prelude::*;

verus! {

/// Whether the `f32` with bit pattern `bits` has its sign bit set.
pub open spec fn sign_bit(bits: u32) -> bool {
    bits >= 0x8000_0000
}

/// The bit pattern `bits` without its sign bit: the magnitude of the `f32` it encodes.
pub open spec fn magnitude(bits: u32) -> int {
    (bits % 0x8000_0000) as int
}

/// IEEE 754 `totalOrder`, which `f32::total_cmp` follows, as a strict order on bit patterns:
/// every value with the sign bit set comes before every value without it; without the sign
/// bit, a larger magnitude comes later; with it, a larger magnitude comes earlier.
pub open spec fn total_order_lt(a: u32, b: u32) -> bool {
    ||| sign_bit(a) && !sign_bit(b)
    ||| !sign_bit(a) && !sign_bit(b) && magnitude(a) < magnitude(b)
    ||| sign_bit(a) && sign_bit(b) && magnitude(a) > magnitude(b)
}

/// The integer that orders `f32` bit patterns as `total_order_lt` does.
pub open spec fn score_key_of(bits: u32) -> int {
    if sign_bit(bits) {
        -1 - magnitude(bits)
    } else {
        bits as int
    }
}

/// The order key of an `f32` score given by its bit pattern (`f32::to_bits`): keys compare
/// as the scores do under `f32::total_cmp`.
pub fn score_key(bits: u32) -> (key: i64)
    ensures
        key == score_key_of(bits),
{
    if bits >= 0x8000_0000 {
        -1 - ((bits - 0x8000_0000) as i64)
    } else {
        bits as i64
    }
}

/// Keys order scores as `f32::total_cmp` does: the key of `a` is below that of `b` exactly
/// when `a` comes before `b` in IEEE 754 `totalOrder`, and keys are equal only for equal bit
/// patterns.
pub proof fn law_score_key_follows_total_order(a: u32, b: u32)
    ensures
        score_key_of(a) < score_key_of(b) <==> total_order_lt(a, b),
        score_key_of(a) == score_key_of(b) <==> a == b,
{
}

/// Index `i` ranks before index `j`: its key is higher, or the keys are equal and `i` comes
/// first (a stable sort by descending key).
pub open spec fn precedes(keys: Seq<i64>, i: usize, j: usize) -> bool {
    keys[i as int] > keys[j as int] || (keys[i as int] == keys[j as int] && i < j)
}

/// The smaller of two integers.
pub open spec fn min_of(a: int, b: int) -> int {
    if a <= b {
        a
    } else {
        b
    }
}

/// `r` is the ranking of the indices `0..n` of `keys`, best first as `precedes` orders them,
/// cut to at most `k` entries: the first `min(k, n)` indices of that order.
pub open spec fn is_top_ranking(keys: Seq<i64>, n: int, k: int, r: Seq<usize>) -> bool {
    &&& r.len() == min_of(k, n)
    &&& forall|a: int| 0 <= a < r.len() ==> #[trigger] r[a] < n
    &&& forall|a: int, b: int|
        0 <= a < b < r.len() ==> #[trigger] precedes(keys, r[a], r[b])
    &&& forall|a: int, y: usize|
        0 <= a < r.len() && y < n && !r.contains(y) ==> #[trigger] precedes(keys, r[a], y)
}

/// The indices of the `top_k` best scores, best first, where `keys[i]` is the order key of
/// the score of item `i`: a stable sort of the indices by descending key, truncated to
/// `top_k`.
pub fn rank_top_k(keys: &Vec<i64>, top_k: usize) -> (ranked: Vec<usize>)
    ensures
        is_top_ranking(keys@, keys.len() as int, top_k as int, ranked@),
{
    let n = keys.len();
    let mut top: Vec<usize> = Vec::new();
    for x in 0..n
        invariant
            n == keys.len(),
            is_top_ranking(keys@, x as int, top_k as int, top@),
            top.len() < top_k ==> forall|y: usize| y < x ==> #[trigger] top@.contains(y),
    {
        let ghost old_top = top@;
        let ghost ks = keys@;
        let mut p: usize = 0;
        while p < top.len() && keys[top[p]] >= keys[x]
            invariant
                p <= top.len(),
                top@ == old_top,
                x < n == keys.len(),
                ks == keys@,
                forall|a: int| 0 <= a < top.len() ==> #[trigger] top@[a] < x,
                forall|a: int| 0 <= a < p ==> ks[#[trigger] top@[a] as int] >= ks[x as int],
            decreases top.len() - p,
        {
            p = p + 1;
        }
        if p < top_k {
            top.insert(p, x);
            let ghost ins = top@;
            assert(ins =~= old_top.subrange(0, p as int).push(x) + old_top.subrange(p as int, old_top.len() as int));
            assert forall|a: int| 0 <= a < ins.len() implies (#[trigger] ins[a]) == (if a < p {
                old_top[a]
            } else if a == p {
                x
            } else {
                old_top[a - 1]
            }) by {}
            // Every old entry from `p` on has a key below that of `x`.
            assert forall|a: int| p <= a < old_top.len() implies ks[#[trigger] old_top[a] as int] < ks[x as int] by {
                if a > p {
                    assert(precedes(ks, old_top[p as int], old_top[a]));
                }
            }
            if top.len() > top_k {
                top.pop();
            }
            let ghost fin = top@;
            assert(fin.len() == min_of(top_k as int, x + 1));
            assert forall|a: int| 0 <= a < fin.len() implies #[trigger] fin[a] < x + 1 by {
                assert(fin[a] == ins[a]);
            }
            assert forall|a: int, b: int| 0 <= a < b < fin.len() implies #[trigger] precedes(ks, fin[a], fin[b]) by {
                assert(fin[a] == ins[a]);
                assert(fin[b] == ins[b]);
            }
            assert forall|a: int, y: usize|
                0 <= a < fin.len() && y < x + 1 && !fin.contains(y) implies #[trigger] precedes(ks, fin[a], y) by {
                assert(fin[a] == ins[a]);
                if y == x {
                    assert(fin[p as int] == x);
                    assert(false);
                } else if old_top.contains(y) {
                    let c = choose|c: int| 0 <= c < old_top.len() && old_top[c] == y;
                    let d = if c < p { c } else { c + 1 };
                    assert(ins[d] == y);
                    if d < fin.len() {
                        assert(fin[d] == y);
                        assert(false);
                    }
                    assert(a < d);
                } else {
                    if old_top.len() < top_k {
                        assert(old_top.contains(y));
                    }
                    if a < p {
                        assert(precedes(ks, old_top[a], y));
                    } else if a == p {
                        if p < old_top.len() {
                            assert(precedes(ks, old_top[p as int], y));
                        } else {
                            assert(old_top.contains(y));
                        }
                    } else {
                        assert(precedes(ks, old_top[a - 1], y));
                    }
                }
            }
            assert(fin.len() < top_k ==> forall|y: usize| y < x + 1 ==> #[trigger] fin.contains(y)) by {
                if fin.len() < top_k {
                    assert forall|y: usize| y < x + 1 implies #[trigger] fin.contains(y) by {
                        if y == x {
                            assert(fin[p as int] == x);
                        } else {
                            assert(old_top.len() < top_k);
                            assert(old_top.contains(y));
                            let c = choose|c: int| 0 <= c < old_top.len() && old_top[c] == y;
                            let d = if c < p { c } else { c + 1 };
                            assert(fin[d] == y);
                        }
                    }
                }
            }
        } else {
            // `x` ranks after every kept index, and the ranking is already full.
            assert(p == top.len());
            assert forall|a: int, y: usize|
                0 <= a < old_top.len() && y < x + 1 && !old_top.contains(y) implies #[trigger] precedes(ks, old_top[a], y) by {
                if y == x {
                    assert(ks[old_top[a] as int] >= ks[x as int]);
                }
            }
            assert(old_top.len() == min_of(top_k as int, x + 1));
        }
    }
    top
}

/// Where two rankings agree before position `a`, the entry of the first at `a` cannot rank
/// strictly before a different entry of the second at `a`.
proof fn lemma_not_ahead(keys: Seq<i64>, n: int, k: int, r: Seq<usize>, s: Seq<usize>, a: int)
    requires
        is_top_ranking(keys, n, k, r),
        is_top_ranking(keys, n, k, s),
        0 <= a < r.len(),
        forall|b: int| 0 <= b < a ==> r[b] == s[b],
    ensures
        !(r[a] != s[a] && precedes(keys, r[a], s[a])),
{
    let u = r[a];
    let v = s[a];
    if u != v && precedes(keys, u, v) {
        if s.contains(u) {
            let b = choose|b: int| 0 <= b < s.len() && s[b] == u;
            if b < a {
                assert(precedes(keys, r[b], r[a]));
            } else {
                assert(precedes(keys, s[a], s[b]));
            }
        } else {
            assert(precedes(keys, s[a], u));
        }
    }
}

/// Where two rankings agree before position `a`, they agree before `a + 1`.
proof fn lemma_rankings_agree(keys: Seq<i64>, n: int, k: int, r: Seq<usize>, s: Seq<usize>, a: int)
    requires
        is_top_ranking(keys, n, k, r),
        is_top_ranking(keys, n, k, s),
        0 <= a <= r.len(),
    ensures
        forall|b: int| 0 <= b < a ==> r[b] == s[b],
    decreases a,
{
    if a > 0 {
        lemma_rankings_agree(keys, n, k, r, s, a - 1);
        lemma_not_ahead(keys, n, k, r, s, a - 1);
        lemma_not_ahead(keys, n, k, s, r, a - 1);
    }
}

/// The ranking is determined: two rankings of the same keys, count and cut are equal.
pub proof fn law_ranking_is_unique(keys: Seq<i64>, n: int, k: int, r: Seq<usize>, s: Seq<usize>)
    requires
        is_top_ranking(keys, n, k, r),
        is_top_ranking(keys, n, k, s),
    ensures
        r == s,
{
    lemma_rankings_agree(keys, n, k, r, s, r.len() as int);
    assert(r =~= s);
}

/// Asking for fewer results gives a prefix: the ranking cut to `k1` is the first `k1` entries
/// of the ranking cut to any `k2 >= k1`.
pub proof fn law_fewer_results_are_a_prefix(
    keys: Seq<i64>,
    n: int,
    k1: int,
    k2: int,
    r1: Seq<usize>,
    r2: Seq<usize>,
)
    requires
        0 <= k1 <= k2,
        0 <= n,
        is_top_ranking(keys, n, k1, r1),
        is_top_ranking(keys, n, k2, r2),
    ensures
        r1 == r2.take(r1.len() as int),
{
    let t = r2.take(r1.len() as int);
    assert forall|a: int, y: usize|
        0 <= a < t.len() && y < n && !t.contains(y) implies #[trigger] precedes(keys, t[a], y) by {
        if r2.contains(y) {
            let b = choose|b: int| 0 <= b < r2.len() && r2[b] == y;
            if b < t.len() {
                assert(t[b] == y);
            }
            assert(precedes(keys, r2[a], r2[b]));
        } else {
            assert(precedes(keys, r2[a], y));
        }
    }
    assert(is_top_ranking(keys, n, k1, t));
    law_ranking_is_unique(keys, n, k1, r1, t);
}

/// A cut at least as large as the number of items keeps every item.
pub proof fn law_large_cut_keeps_all(keys: Seq<i64>, n: int, k: int, r: Seq<usize>)
    requires
        0 <= n <= k,
        n <= usize::MAX,
        is_top_ranking(keys, n, k, r),
    ensures
        r.len() == n,
        forall|y: usize| y < n ==> #[trigger] r.contains(y),
{
    assert forall|y: usize| y < n implies #[trigger] r.contains(y) by {
        lemma_distinct_below_is_all(keys, r, n, y);
    }
}

/// `n` distinct indices below `n` include every index below `n`.
proof fn lemma_distinct_below_is_all(keys: Seq<i64>, r: Seq<usize>, n: int, y: usize)
    requires
        r.len() == n,
        n <= usize::MAX,
        forall|a: int| 0 <= a < r.len() ==> #[trigger] r[a] < n,
        forall|a: int, b: int| 0 <= a < b < r.len() ==> #[trigger] precedes(keys, r[a], r[b]),
        y < n,
    ensures
        r.contains(y),
{
    broadcast use vstd::set_lib::range_set_properties;
    assert forall|a: int, b: int| 0 <= a < r.len() && 0 <= b < r.len() && a != b implies r[a]
        != r[b] by {
        if a < b {
            assert(precedes(keys, r[a], r[b]));
        } else {
            assert(precedes(keys, r[b], r[a]));
        }
    }
    assert(r.no_duplicates());
    r.unique_seq_to_set();
    let m = r.to_set();
    let full = Set::<usize>::range(0usize, n as usize);
    assert(full.len() == n);
    if !r.contains(y) {
        let rest = full.remove(y);
        assert(m.subset_of(rest)) by {
            assert forall|z: usize| m.contains(z) implies rest.contains(z) by {
                let a = choose|a: int| 0 <= a < r.len() && r[a] == z;
                assert(r[a] < n);
            }
        }
        assert(full.contains(y));
        vstd::set_lib::lemma_len_subset(m, rest);
    }
}

/// The order keys of scores given by their bit patterns.
pub open spec fn score_keys(bits: Seq<u32>) -> Seq<i64> {
    bits.map_values(|b: u32| score_key_of(b) as i64)
}

/// The indices of the `top_k` best scores, best first, where `score_bits[i]` is the bit
/// pattern (`f32::to_bits`) of the score of item `i`: the indices sorted stably by
/// descending score under `f32::total_cmp`, truncated to `top_k`.
pub fn rank_scores(score_bits: &Vec<u32>, top_k: usize) -> (ranked: Vec<usize>)
    ensures
        is_top_ranking(score_keys(score_bits@), score_bits.len() as int, top_k as int, ranked@),
{
    let mut keys: Vec<i64> = Vec::new();
    let n = score_bits.len();
    for i in 0..n
        invariant
            n == score_bits.len(),
            keys@ == score_keys(score_bits@).take(i as int),
    {
        let k = score_key(score_bits[i]);
        keys.push(k);
        assert(keys@ =~= score_keys(score_bits@).take(i + 1));
    }
    assert(keys@ =~= score_keys(score_bits@));
    rank_top_k(&keys, top_k)
}

/// Ranked scores descend in `f32::total_cmp` order, and equal scores keep the order of
/// their items.
pub proof fn law_ranked_scores_descend(bits: Seq<u32>, k: int, r: Seq<usize>)
    requires
        is_top_ranking(score_keys(bits), bits.len() as int, k, r),
    ensures
        forall|a: int, b: int|
            0 <= a < b < r.len() ==> total_order_lt(#[trigger] bits[r[b] as int], #[trigger] bits[r[a] as int])
                || (bits[r[a] as int] == bits[r[b] as int] && r[a] < r[b]),
{
    assert forall|a: int, b: int| 0 <= a < b < r.len() implies total_order_lt(
        #[trigger] bits[r[b] as int],
        #[trigger] bits[r[a] as int],
    ) || (bits[r[a] as int] == bits[r[b] as int] && r[a] < r[b]) by {
        assert(precedes(score_keys(bits), r[a], r[b]));
        law_score_key_follows_total_order(bits[r[b] as int], bits[r[a] as int]);
    }
}

} // verus!
