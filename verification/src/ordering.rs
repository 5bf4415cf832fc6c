//! Stable orderings of lists, given as permutations of their indices.
use vstd::prelude::*;
use crate::index::{text_lt, text_less, lemma_text_lt_transitive, lemma_text_lt_asymmetric, lemma_text_lt_total};
use crate::engine::names_view;

verus! {

/// `p` lists each index below `n` exactly once.
pub open spec fn is_permutation(p: Seq<usize>, n: nat) -> bool {
    &&& p.len() == n
    &&& forall|i: int| 0 <= i < p.len() ==> #[trigger] p[i] < n
    &&& forall|i: int, j: int| 0 <= i < j < p.len() ==> p[i] != p[j]
}

/// `a` comes no later than `b` in code-point order.
pub open spec fn text_le(a: Seq<char>, b: Seq<char>) -> bool {
    !text_lt(b, a)
}

/// The order `p` of the texts `keys` is ascending and stable: equal keys keep
/// the order of their indices.
pub open spec fn sorted_stably_by_text(keys: Seq<Seq<char>>, p: Seq<usize>) -> bool {
    forall|i: int, j: int|
        0 <= i < j < p.len() ==> text_le(keys[#[trigger] p[i] as int], keys[#[trigger] p[j] as int]) && (
        keys[p[i] as int] == keys[p[j] as int] ==> p[i] < p[j])
}

/// The order `p` of the integers `keys` is descending and stable.
pub open spec fn sorted_stably_desc(keys: Seq<i64>, p: Seq<usize>) -> bool {
    forall|i: int, j: int|
        0 <= i < j < p.len() ==> keys[#[trigger] p[i] as int] >= keys[#[trigger] p[j] as int] && (keys[p[i] as int]
            == keys[p[j] as int] ==> p[i] < p[j])
}

proof fn lemma_insert_permutation(p: Seq<usize>, i: usize, pos: int)
    requires
        is_permutation(p, i as nat),
        0 <= pos <= p.len(),
    ensures
        is_permutation(p.insert(pos, i), (i + 1) as nat),
{
    let q = p.insert(pos, i);
    assert forall|a: int| 0 <= a < q.len() implies #[trigger] q[a] < i + 1 by {
        if a < pos {
            assert(q[a] == p[a]);
        } else if a > pos {
            assert(q[a] == p[a - 1]);
        }
    }
    assert forall|a: int, b: int| 0 <= a < b < q.len() implies q[a] != q[b] by {
        if a < pos && b < pos {
            assert(q[a] == p[a] && q[b] == p[b]);
        } else if a < pos && b > pos {
            assert(q[a] == p[a] && q[b] == p[b - 1]);
        } else if a > pos && b > pos {
            assert(q[a] == p[a - 1] && q[b] == p[b - 1]);
        } else if a == pos {
            assert(q[b] == p[b - 1]);
        } else {
            assert(q[a] == p[a]);
        }
    }
}

/// The indices of `keys` in ascending text order; equal keys keep their order.
pub fn stable_order_by_text(keys: &Vec<String>) -> (r: Vec<usize>)
    ensures
        is_permutation(r@, keys@.len() as nat),
        sorted_stably_by_text(names_view(keys@), r@),
{
    let ghost ks = names_view(keys@);
    let mut order: Vec<usize> = Vec::new();
    let mut i: usize = 0;
    while i < keys.len()
        invariant
            ks == names_view(keys@),
            i <= keys@.len(),
            is_permutation(order@, i as nat),
            sorted_stably_by_text(ks, order@),
        decreases keys@.len() - i,
    {
        // position after every key that is not greater than keys[i]
        let mut pos: usize = order.len();
        while pos > 0 && text_less(keys[i].as_str(), keys[order[pos - 1]].as_str())
            invariant
                ks == names_view(keys@),
                i < keys@.len(),
                pos <= order@.len(),
                is_permutation(order@, i as nat),
                forall|a: int| pos <= a < order@.len() ==> text_lt(ks[i as int], #[trigger] ks[order@[a] as int]),
            decreases pos,
        {
            proof {
                assert(order@[pos - 1] < i);
            }
            pos = pos - 1;
        }
        let ghost old_order = order@;
        proof {
            assert(ks[i as int] == keys@[i as int]@);
            if pos > 0 {
                assert(order@[pos - 1] < i);
            }
            lemma_insert_permutation(old_order, i, pos as int);
        }
        order.insert(pos, i);
        proof {
            let q = order@;
            assert(q =~= old_order.insert(pos as int, i));
            assert forall|a: int, b: int| 0 <= a < b < q.len() implies text_le(ks[#[trigger] q[a] as int], ks[#[trigger] q[b] as int])
                && (ks[q[a] as int] == ks[q[b] as int] ==> q[a] < q[b]) by {
                if b < pos {
                    assert(q[a] == old_order[a] && q[b] == old_order[b]);
                } else if a > pos {
                    assert(q[a] == old_order[a - 1] && q[b] == old_order[b - 1]);
                } else if a < pos && b > pos {
                    assert(q[a] == old_order[a] && q[b] == old_order[b - 1]);
                } else if b == pos {
                    // q[a] = old[a] with a < pos; key not greater than keys[i]
                    assert(q[a] == old_order[a]);
                    assert(q[b] == i);
                    assert(!text_lt(ks[i as int], ks[old_order[pos - 1] as int]));
                    if a < pos - 1 {
                        assert(text_le(ks[old_order[a] as int], ks[old_order[pos - 1] as int]));
                        lemma_text_lt_total(ks[i as int], ks[old_order[pos - 1] as int]);
                        if text_lt(ks[i as int], ks[old_order[a] as int]) {
                            lemma_text_lt_total(ks[old_order[a] as int], ks[old_order[pos - 1] as int]);
                            if text_lt(ks[old_order[a] as int], ks[old_order[pos - 1] as int]) {
                                lemma_text_lt_transitive(ks[i as int], ks[old_order[a] as int], ks[old_order[pos - 1] as int]);
                            }
                        }
                    }
                    assert(old_order[a] < i);
                } else {
                    // a == pos: q[a] = i, q[b] = old[b - 1], key greater than keys[i]
                    assert(q[a] == i);
                    assert(q[b] == old_order[b - 1]);
                    assert(text_lt(ks[i as int], ks[old_order[b - 1] as int]));
                    lemma_text_lt_asymmetric(ks[i as int], ks[old_order[b - 1] as int]);
                    crate::index::lemma_text_lt_irreflexive(ks[i as int]);
                }
            }
        }
        i = i + 1;
    }
    order
}

/// The indices of `keys` in descending order; equal keys keep their order.
pub fn stable_order_desc(keys: &Vec<i64>) -> (r: Vec<usize>)
    ensures
        is_permutation(r@, keys@.len() as nat),
        sorted_stably_desc(keys@, r@),
{
    let mut order: Vec<usize> = Vec::new();
    let mut i: usize = 0;
    while i < keys.len()
        invariant
            i <= keys@.len(),
            is_permutation(order@, i as nat),
            sorted_stably_desc(keys@, order@),
        decreases keys@.len() - i,
    {
        let mut pos: usize = order.len();
        while pos > 0 && keys[order[pos - 1]] < keys[i]
            invariant
                i < keys@.len(),
                pos <= order@.len(),
                is_permutation(order@, i as nat),
                forall|a: int| pos <= a < order@.len() ==> keys@[#[trigger] order@[a] as int] < keys@[i as int],
            decreases pos,
        {
            proof {
                assert(order@[pos - 1] < i);
            }
            pos = pos - 1;
        }
        let ghost old_order = order@;
        proof {
            if pos > 0 {
                assert(order@[pos - 1] < i);
            }
            lemma_insert_permutation(old_order, i, pos as int);
        }
        order.insert(pos, i);
        proof {
            let q = order@;
            assert(q =~= old_order.insert(pos as int, i));
            assert forall|a: int, b: int| 0 <= a < b < q.len() implies keys@[#[trigger] q[a] as int] >= keys@[#[trigger] q[b] as int]
                && (keys@[q[a] as int] == keys@[q[b] as int] ==> q[a] < q[b]) by {
                if b < pos {
                    assert(q[a] == old_order[a] && q[b] == old_order[b]);
                } else if a > pos {
                    assert(q[a] == old_order[a - 1] && q[b] == old_order[b - 1]);
                } else if a < pos && b > pos {
                    assert(q[a] == old_order[a] && q[b] == old_order[b - 1]);
                } else if b == pos {
                    assert(q[a] == old_order[a]);
                    assert(keys@[old_order[a] as int] >= keys@[old_order[pos - 1] as int]);
                    assert(old_order[a] < i);
                } else {
                    assert(q[b] == old_order[b - 1]);
                }
            }
        }
        i = i + 1;
    }
    order
}

} // verus!
