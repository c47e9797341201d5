//! Top-N ranking: the first `n` items by a numeric key, ascending or descending.
//! Each item is given by its key; the caller maps its values to keys in their
//! order, so that equal values get equal keys. Items of equal key keep their order.
use vstd::prelude::*;

verus! {

/// The key by which an item ranks: its own key, or the complement when ranking
/// in descending order.
pub open spec fn rank_key(key: u64, desc: bool) -> int {
    if desc {
        u64::MAX - key
    } else {
        key as int
    }
}

/// Item `p` ranks before item `q`: a smaller rank key, or the same rank key and
/// an earlier position.
pub open spec fn ranks_before(keys: Seq<u64>, desc: bool, p: int, q: int) -> bool {
    rank_key(keys[p], desc) < rank_key(keys[q], desc) || (rank_key(keys[p], desc) == rank_key(
        keys[q],
        desc,
    ) && p < q)
}

/// `r` lists, in ranking order, the positions of the `min(n, |keys|)` items that
/// rank first: every item left out ranks after all of them.
pub open spec fn is_top(keys: Seq<u64>, n: nat, desc: bool, r: Seq<usize>) -> bool {
    &&& r.len() == (if n < keys.len() { n } else { keys.len() })
    &&& forall|i: int| 0 <= i < r.len() ==> (#[trigger] r[i]) < keys.len()
    &&& forall|i: int, k: int|
        0 <= i < k < r.len() ==> ranks_before(keys, desc, #[trigger] r[i] as int, #[trigger] r[k] as int)
    &&& forall|q: int|
        0 <= q < keys.len() && !#[trigger] r.contains(q as usize) ==> r.len() == n && (n == 0 || ranks_before(
            keys,
            desc,
            r.last() as int,
            q,
        ))
}

fn rank_of(key: u64, desc: bool) -> (r: u64)
    ensures
        r == rank_key(key, desc),
{
    if desc {
        u64::MAX - key
    } else {
        key
    }
}

/// The selection after the first `j` items: the top `min(n, j)` of them.
spec fn top_so_far(keys: Seq<u64>, n: nat, desc: bool, j: int, sel: Seq<usize>) -> bool {
    &&& sel.len() == (if n < j { n as int } else { j })
    &&& forall|i: int| 0 <= i < sel.len() ==> (#[trigger] sel[i]) < j
    &&& forall|i: int, k: int|
        0 <= i < k < sel.len() ==> ranks_before(keys, desc, #[trigger] sel[i] as int, #[trigger] sel[k] as int)
    &&& forall|q: int|
        0 <= q < j && !#[trigger] sel.contains(q as usize) ==> sel.len() == n && (n == 0 || ranks_before(
            keys,
            desc,
            sel.last() as int,
            q,
        ))
}

/// Inserting `j` at `pos`, where everything before `pos` ranks before `j` and
/// everything from `pos` on ranks after it, keeps the selection in ranking order.
proof fn lemma_insert_sorted(keys: Seq<u64>, desc: bool, sel: Seq<usize>, pos: int, j: usize)
    requires
        0 <= pos <= sel.len(),
        forall|i: int, k: int|
            0 <= i < k < sel.len() ==> ranks_before(keys, desc, #[trigger] sel[i] as int, #[trigger] sel[k] as int),
        forall|i: int| 0 <= i < pos ==> ranks_before(keys, desc, #[trigger] sel[i] as int, j as int),
        forall|i: int| pos <= i < sel.len() ==> ranks_before(keys, desc, j as int, #[trigger] sel[i] as int),
    ensures
        forall|i: int, k: int|
            0 <= i < k < sel.len() + 1 ==> ranks_before(
                keys,
                desc,
                #[trigger] sel.insert(pos, j)[i] as int,
                #[trigger] sel.insert(pos, j)[k] as int,
            ),
{
    let t = sel.insert(pos, j);
    assert forall|i: int, k: int| 0 <= i < k < sel.len() + 1 implies ranks_before(
        keys,
        desc,
        #[trigger] t[i] as int,
        #[trigger] t[k] as int,
    ) by {
        if k < pos {
            assert(t[i] == sel[i] && t[k] == sel[k]);
        } else if k == pos {
            assert(t[i] == sel[i] && t[k] == j);
        } else if i < pos {
            assert(t[i] == sel[i] && t[k] == sel[k - 1]);
        } else if i == pos {
            assert(t[i] == j && t[k] == sel[k - 1]);
        } else {
            assert(t[i] == sel[i - 1] && t[k] == sel[k - 1]);
        }
    }
}

/// The positions of the `min(n, |keys|)` items that rank first (ascending keys,
/// or descending when `desc`; equal keys in their original order), in ranking order.
pub fn top_positions(keys: &Vec<u64>, n: usize, desc: bool) -> (r: Vec<usize>)
    ensures
        is_top(keys@, n as nat, desc, r@),
{
    let m = keys.len();
    let mut sel: Vec<usize> = Vec::new();
    let mut j: usize = 0;
    while j < m
        invariant
            j <= m == keys@.len(),
            top_so_far(keys@, n as nat, desc, j as int, sel@),
        decreases m - j,
    {
        let kj = rank_of(keys[j], desc);
        let len = sel.len();
        let ghost old_sel = sel@;
        // Everything before `pos` ranks before `j`, since `j` comes after all of them.
        let mut pos: usize = 0;
        while pos < len && rank_of(keys[sel[pos]], desc) <= kj
            invariant
                j < m == keys@.len(),
                len == sel@.len(),
                sel@ == old_sel,
                kj == rank_key(keys@[j as int], desc),
                pos <= len,
                forall|i: int| 0 <= i < sel@.len() ==> (#[trigger] sel@[i]) < j,
                forall|i: int| 0 <= i < pos ==> rank_key(keys@[#[trigger] sel@[i] as int], desc) <= kj,
            decreases len - pos,
        {
            pos = pos + 1;
        }
        proof {
            assert forall|i: int| 0 <= i < pos implies ranks_before(keys@, desc, #[trigger] old_sel[i] as int, j as int) by {}
            assert forall|i: int| pos <= i < old_sel.len() implies ranks_before(keys@, desc, j as int, #[trigger] old_sel[i] as int) by {
                if pos < i {
                    assert(ranks_before(keys@, desc, old_sel[pos as int] as int, old_sel[i] as int));
                }
            }
        }
        if len < n {
            sel.insert(pos, j);
            proof {
                lemma_insert_sorted(keys@, desc, old_sel, pos as int, j);
                let t = sel@;
                assert forall|i: int| 0 <= i < t.len() implies (#[trigger] t[i]) < j + 1 by {
                    if i < pos {
                        assert(t[i] == old_sel[i]);
                    } else if i > pos {
                        assert(t[i] == old_sel[i - 1]);
                    }
                }
                assert forall|q: int| 0 <= q < j + 1 implies #[trigger] t.contains(q as usize) by {
                    if q == j {
                        assert(t[pos as int] == j);
                    } else {
                        assert(old_sel.contains(q as usize));
                        let w = choose|w: int| 0 <= w < old_sel.len() && old_sel[w] == q as usize;
                        if w < pos {
                            assert(t[w] == old_sel[w]);
                        } else {
                            assert(t[w + 1] == old_sel[w]);
                        }
                    }
                }
            }
        } else if n > 0 && kj < rank_of(keys[sel[len - 1]], desc) {
            proof {
                if pos == len {
                    assert(rank_key(keys@[old_sel[len - 1] as int], desc) <= kj);
                }
            }
            sel.insert(pos, j);
            let ghost ins = sel@;
            sel.pop();
            proof {
                lemma_insert_sorted(keys@, desc, old_sel, pos as int, j);
                let t = sel@;
                let last_old = old_sel[len - 1];
                assert(ins[len as int] == last_old);
                assert(t =~= ins.subrange(0, len as int));
                assert forall|i: int| 0 <= i < t.len() implies (#[trigger] t[i]) < j + 1 by {
                    assert(t[i] == ins[i]);
                    if i < pos {
                        assert(ins[i] == old_sel[i]);
                    } else if i > pos {
                        assert(ins[i] == old_sel[i - 1]);
                    }
                }
                assert forall|i: int, k: int| 0 <= i < k < t.len() implies ranks_before(
                    keys@,
                    desc,
                    #[trigger] t[i] as int,
                    #[trigger] t[k] as int,
                ) by {
                    assert(t[i] == ins[i] && t[k] == ins[k]);
                }
                // The new last ranks before the item that was dropped.
                assert(ranks_before(keys@, desc, t.last() as int, last_old as int)) by {
                    assert(t.last() == ins[len - 1]);
                }
                assert forall|q: int| 0 <= q < j + 1 && !#[trigger] t.contains(q as usize) implies t.len() == n
                    && ranks_before(keys@, desc, t.last() as int, q) by {
                    if q == j {
                        assert(t[pos as int] == j);
                    } else if q == last_old as int {
                    } else {
                        if old_sel.contains(q as usize) {
                            let w = choose|w: int| 0 <= w < old_sel.len() && old_sel[w] == q as usize;
                            if w < pos {
                                assert(t[w] == old_sel[w]);
                            } else {
                                assert(w < len - 1);
                                assert(t[w + 1] == old_sel[w]);
                            }
                        } else {
                            assert(ranks_before(keys@, desc, last_old as int, q));
                        }
                    }
                }
            }
        } else {
            proof {
                if n > 0 {
                    assert(ranks_before(keys@, desc, old_sel.last() as int, j as int));
                }
            }
        }
        j = j + 1;
    }
    sel
}

/// Law: the ranking is determined by the keys: two selections that both list the
/// top `n` items are the same.
pub proof fn lemma_top_unique(keys: Seq<u64>, n: nat, desc: bool, r: Seq<usize>, s: Seq<usize>)
    requires
        is_top(keys, n, desc, r),
        is_top(keys, n, desc, s),
    ensures
        r == s,
{
    assert forall|i: int| 0 <= i < r.len() implies r[i] == s[i] by {
        lemma_top_index(keys, n, desc, r, s, i);
    }
    assert(r =~= s);
}

/// Position `i` of two top lists agrees, by induction on `i`.
proof fn lemma_top_index(keys: Seq<u64>, n: nat, desc: bool, r: Seq<usize>, s: Seq<usize>, i: int)
    requires
        is_top(keys, n, desc, r),
        is_top(keys, n, desc, s),
        0 <= i < r.len(),
    ensures
        r[i] == s[i],
    decreases i,
{
    // Suppose r[i] ranks before s[i]. Then r[i] is not among s[0..i) (those equal
    // r[0..i), which rank strictly before r[i]) nor among s[i..] (which rank at or
    // after s[i]); so s leaves r[i] out, and then s's last ranks before r[i]: a
    // contradiction with s[i] ranking after r[i]. Symmetrically for s[i] before r[i].
    assert forall|k: int| 0 <= k < i implies r[k] == s[k] by {
        lemma_top_index(keys, n, desc, r, s, k);
    }
    let a = r[i] as int;
    let b = s[i] as int;
    if a != b {
        if ranks_before(keys, desc, a, b) {
            lemma_left_out(keys, n, desc, r, s, i);
        } else {
            assert(ranks_before(keys, desc, b, a));
            lemma_left_out(keys, n, desc, s, r, i);
        }
    }
}

/// With equal prefixes before `i`, `r[i]` does not rank before `s[i]`: else `s`
/// would have to hold `r[i]` somewhere, and no place is left for it.
proof fn lemma_left_out(keys: Seq<u64>, n: nat, desc: bool, r: Seq<usize>, s: Seq<usize>, i: int)
    requires
        is_top(keys, n, desc, r),
        is_top(keys, n, desc, s),
        0 <= i < r.len(),
        r.len() == s.len(),
        forall|k: int| 0 <= k < i ==> r[k] == s[k],
    ensures
        !ranks_before(keys, desc, r[i] as int, s[i] as int),
{
    let a = r[i];
    if ranks_before(keys, desc, a as int, s[i] as int) {
        if s.contains(a) {
            let w = choose|w: int| 0 <= w < s.len() && s[w] == a;
            if w < i {
                assert(r[w] == a);
                assert(ranks_before(keys, desc, r[w] as int, r[i] as int));
            } else if w == i {
            } else {
                assert(ranks_before(keys, desc, s[i] as int, s[w] as int));
            }
        } else {
            assert((a as int) as usize == a);
            assert(!s.contains((a as int) as usize));
            assert(n > 0);
            assert(s.len() > 0);
            let l = s.len() - 1;
            if l > i {
                assert(ranks_before(keys, desc, s[i] as int, s[l] as int));
            }
            assert(ranks_before(keys, desc, s.last() as int, a as int));
        }
    }
}

} // verus!
