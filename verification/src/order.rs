//! Stable sorting by keys that compare from their first number to their last.

use vstd::prelude::*;

verus! {

/// Lexicographic order: the first difference decides, and a prefix comes first.
pub open spec fn lex_le(a: Seq<u64>, b: Seq<u64>) -> bool
    decreases a.len(),
{
    if a.len() == 0 {
        true
    } else if b.len() == 0 {
        false
    } else if a[0] != b[0] {
        a[0] < b[0]
    } else {
        lex_le(a.skip(1), b.skip(1))
    }
}

/// Lexicographic order is reflexive.
pub proof fn law_lex_le_reflexive(a: Seq<u64>)
    ensures
        lex_le(a, a),
    decreases a.len(),
{
    if a.len() > 0 {
        law_lex_le_reflexive(a.skip(1));
    }
}

/// Of any two keys one comes first.
pub proof fn law_lex_le_total(a: Seq<u64>, b: Seq<u64>)
    ensures
        lex_le(a, b) || lex_le(b, a),
    decreases a.len(),
{
    if a.len() > 0 && b.len() > 0 && a[0] == b[0] {
        law_lex_le_total(a.skip(1), b.skip(1));
    }
}

/// Two keys that come before each other are the same.
pub proof fn law_lex_le_antisymmetric(a: Seq<u64>, b: Seq<u64>)
    requires
        lex_le(a, b),
        lex_le(b, a),
    ensures
        a == b,
    decreases a.len(),
{
    if a.len() > 0 {
        law_lex_le_antisymmetric(a.skip(1), b.skip(1));
        assert(a =~= seq![a[0]] + a.skip(1));
        assert(b =~= seq![b[0]] + b.skip(1));
    } else {
        assert(a =~= b);
    }
}

/// Lexicographic order is transitive.
pub proof fn law_lex_le_transitive(a: Seq<u64>, b: Seq<u64>, c: Seq<u64>)
    requires
        lex_le(a, b),
        lex_le(b, c),
    ensures
        lex_le(a, c),
    decreases a.len(),
{
    if a.len() > 0 && a[0] == b[0] && b[0] == c[0] {
        law_lex_le_transitive(a.skip(1), b.skip(1), c.skip(1));
    }
}

/// The views of a list of keys.
pub open spec fn key_views(keys: Seq<Vec<u64>>) -> Seq<Seq<u64>> {
    keys.map_values(|k: Vec<u64>| k@)
}

/// Whether item `i` comes before item `j` when sorted by `keys`: by the smaller
/// key, and at equal keys by the earlier position.
pub open spec fn comes_before(keys: Seq<Seq<u64>>, i: int, j: int) -> bool {
    if keys[i] == keys[j] {
        i < j
    } else {
        lex_le(keys[i], keys[j])
    }
}

/// `order` lists each position of `lo..hi` once, sorted stably by `keys`.
pub open spec fn is_stable_order(
    keys: Seq<Seq<u64>>,
    order: Seq<usize>,
    lo: int,
    hi: int,
) -> bool {
    &&& order.len() == hi - lo
    &&& forall|i: int| 0 <= i < order.len() ==> lo <= #[trigger] order[i] < hi
    &&& forall|x: int| lo <= x < hi ==> #[trigger] order.contains(x as usize)
    &&& forall|i: int, j: int|
        0 <= i < j < order.len() ==> comes_before(
            keys,
            #[trigger] order[i] as int,
            #[trigger] order[j] as int,
        )
}

proof fn lemma_before_transitive(keys: Seq<Seq<u64>>, i: int, j: int, k: int)
    requires
        comes_before(keys, i, j),
        comes_before(keys, j, k),
    ensures
        comes_before(keys, i, k),
{
    law_lex_le_reflexive(keys[i]);
    law_lex_le_reflexive(keys[j]);
    law_lex_le_transitive(keys[i], keys[j], keys[k]);
    if keys[i] == keys[k] && keys[i] != keys[j] {
        law_lex_le_antisymmetric(keys[i], keys[j]);
    }
}

/// Whether `a` is at most `b`.
pub fn key_le(a: &Vec<u64>, b: &Vec<u64>) -> (r: bool)
    ensures
        r == lex_le(a@, b@),
{
    let mut i: usize = 0;
    proof {
        assert(a@.skip(0) =~= a@);
        assert(b@.skip(0) =~= b@);
    }
    while i < a.len()
        invariant
            i <= a@.len(),
            i <= b@.len(),
            lex_le(a@, b@) == lex_le(a@.skip(i as int), b@.skip(i as int)),
        decreases a@.len() - i,
    {
        if i >= b.len() {
            return false;
        }
        if a[i] != b[i] {
            return a[i] < b[i];
        }
        proof {
            assert(a@.skip(i as int).skip(1) =~= a@.skip(i + 1));
            assert(b@.skip(i as int).skip(1) =~= b@.skip(i + 1));
        }
        i = i + 1;
    }
    true
}

/// Merges two sorted runs of positions, where those of `left` are the smaller ones.
fn merge(keys: &Vec<Vec<u64>>, left: &Vec<usize>, right: &Vec<usize>, Ghost(lo): Ghost<int>, Ghost(
    mid,
): Ghost<int>, Ghost(hi): Ghost<int>) -> (r: Vec<usize>)
    requires
        0 <= lo <= mid <= hi <= keys@.len(),
        is_stable_order(key_views(keys@), left@, lo, mid),
        is_stable_order(key_views(keys@), right@, mid, hi),
    ensures
        is_stable_order(key_views(keys@), r@, lo, hi),
{
    let mut out: Vec<usize> = Vec::with_capacity(left.len());
    let mut i: usize = 0;
    let mut j: usize = 0;
    while i < left.len() || j < right.len()
        invariant
            0 <= lo <= mid <= hi <= keys@.len(),
            is_stable_order(key_views(keys@), left@, lo, mid),
            is_stable_order(key_views(keys@), right@, mid, hi),
            i <= left@.len(),
            j <= right@.len(),
            out@.len() == i + j,
            forall|k: int| 0 <= k < out@.len() ==> lo <= #[trigger] out@[k] < hi,
            forall|k: int| 0 <= k < i ==> #[trigger] out@.contains(left@[k]),
            forall|k: int| 0 <= k < j ==> #[trigger] out@.contains(right@[k]),
            forall|k: int, l: int|
                0 <= k < l < out@.len() ==> comes_before(key_views(keys@),
                    #[trigger] out@[k] as int,
                    #[trigger] out@[l] as int,
                ),
            forall|k: int, l: int|
                0 <= k < out@.len() && i <= l < left@.len() ==> comes_before(key_views(keys@),
                    #[trigger] out@[k] as int,
                    #[trigger] left@[l] as int,
                ),
            forall|k: int, l: int|
                0 <= k < out@.len() && j <= l < right@.len() ==> comes_before(key_views(keys@),
                    #[trigger] out@[k] as int,
                    #[trigger] right@[l] as int,
                ),
        decreases left@.len() - i + right@.len() - j,
    {
        let take_left = if i >= left.len() {
            false
        } else if j >= right.len() {
            true
        } else {
            key_le(&keys[left[i]], &keys[right[j]])
        };
        let ghost out0 = out@;
        if take_left {
            let x = left[i];
            out.push(x);
            proof {
                assert forall|l: int| j <= l < right@.len() implies comes_before(key_views(keys@),
                    x as int,
                    #[trigger] right@[l] as int,
                ) by {
                    assert(lex_le(key_views(keys@)[x as int], key_views(keys@)[right@[j as int] as int]));
                    assert(comes_before(key_views(keys@), x as int, right@[j as int] as int));
                    if l > j {
                        lemma_before_transitive(key_views(keys@),
                            x as int,
                            right@[j as int] as int,
                            right@[l] as int,
                        );
                    }
                }
                assert forall|k: int| 0 <= k < i + 1 implies #[trigger] out@.contains(left@[k]) by {
                    if k < i {
                        assert(out0.contains(left@[k]));
                        let w = choose|w: int| 0 <= w < out0.len() && out0[w] == left@[k];
                        assert(out@[w] == left@[k]);
                    } else {
                        assert(out@[out0.len() as int] == left@[k]);
                    }
                }
                assert forall|k: int| 0 <= k < j implies #[trigger] out@.contains(right@[k]) by {
                    assert(out0.contains(right@[k]));
                    let w = choose|w: int| 0 <= w < out0.len() && out0[w] == right@[k];
                    assert(out@[w] == right@[k]);
                }
            }
            i = i + 1;
        } else {
            let y = right[j];
            out.push(y);
            proof {
                assert forall|l: int| i <= l < left@.len() implies comes_before(key_views(keys@),
                    y as int,
                    #[trigger] left@[l] as int,
                ) by {
                    let x = left@[i as int] as int;
                    law_lex_le_total(key_views(keys@)[x], key_views(keys@)[y as int]);
                    law_lex_le_reflexive(key_views(keys@)[x]);
                    assert(comes_before(key_views(keys@), y as int, x));
                    if l > i {
                        lemma_before_transitive(key_views(keys@), y as int, x, left@[l] as int);
                    }
                }
                assert forall|k: int| 0 <= k < j + 1 implies #[trigger] out@.contains(right@[k]) by {
                    if k < j {
                        assert(out0.contains(right@[k]));
                        let w = choose|w: int| 0 <= w < out0.len() && out0[w] == right@[k];
                        assert(out@[w] == right@[k]);
                    } else {
                        assert(out@[out0.len() as int] == right@[k]);
                    }
                }
                assert forall|k: int| 0 <= k < i implies #[trigger] out@.contains(left@[k]) by {
                    assert(out0.contains(left@[k]));
                    let w = choose|w: int| 0 <= w < out0.len() && out0[w] == left@[k];
                    assert(out@[w] == left@[k]);
                }
            }
            j = j + 1;
        }
    }
    proof {
        assert forall|x: int| lo <= x < hi implies #[trigger] out@.contains(x as usize) by {
            if x < mid {
                assert(left@.contains(x as usize));
                let k = choose|k: int| 0 <= k < left@.len() && left@[k] == x as usize;
                assert(out@.contains(left@[k]));
            } else {
                assert(right@.contains(x as usize));
                let k = choose|k: int| 0 <= k < right@.len() && right@[k] == x as usize;
                assert(out@.contains(right@[k]));
            }
        }
    }
    out
}

fn sort_range(keys: &Vec<Vec<u64>>, lo: usize, hi: usize) -> (r: Vec<usize>)
    requires
        lo <= hi <= keys@.len(),
    ensures
        is_stable_order(key_views(keys@), r@, lo as int, hi as int),
    decreases hi - lo,
{
    if hi - lo <= 1 {
        let mut out: Vec<usize> = Vec::new();
        if lo < hi {
            out.push(lo);
            proof {
                assert(out@[0] == lo);
            }
        }
        out
    } else {
        let mid: usize = lo + (hi - lo) / 2;
        let left = sort_range(keys, lo, mid);
        let right = sort_range(keys, mid, hi);
        merge(keys, &left, &right, Ghost(lo as int), Ghost(mid as int), Ghost(hi as int))
    }
}

/// The stable order of all keys.
pub open spec fn stable_order(keys: Seq<Seq<u64>>) -> Seq<usize> {
    choose|order: Seq<usize>| is_stable_order(keys, order, 0, keys.len() as int)
}

/// The positions of `keys` in ascending order of the keys, equal keys in their given order.
pub fn sort_order(keys: &Vec<Vec<u64>>) -> (r: Vec<usize>)
    ensures
        is_stable_order(key_views(keys@), r@, 0, keys@.len() as int),
        r@ == stable_order(key_views(keys@)),
{
    let total: usize = keys.len();
    let order = sort_range(keys, 0, total);
    proof {
        law_stable_order_is_unique(
            key_views(keys@),
            order@,
            stable_order(key_views(keys@)),
            0,
            total as int,
        );
    }
    order
}

/// Two lists that are sorted by the same strict order and hold the same are the same.
pub proof fn lemma_sorted_lists_equal<T>(a: Seq<T>, b: Seq<T>, before: spec_fn(T, T) -> bool)
    requires
        forall|x: T, y: T| #[trigger] before(x, y) ==> !before(y, x),
        forall|i: int, j: int| 0 <= i < j < a.len() ==> before(#[trigger] a[i], #[trigger] a[j]),
        forall|i: int, j: int| 0 <= i < j < b.len() ==> before(#[trigger] b[i], #[trigger] b[j]),
        forall|x: T| #[trigger] a.contains(x) <==> b.contains(x),
    ensures
        a == b,
    decreases a.len(),
{
    if a.len() == 0 {
        if b.len() > 0 {
            assert(b.contains(b[0]));
            assert(a.contains(b[0]));
        }
        assert(a =~= b);
    } else {
        assert(a.contains(a[0]));
        assert(b.contains(a[0]));
        let j = choose|j: int| 0 <= j < b.len() && b[j] == a[0];
        assert(b.contains(b[0]));
        assert(a.contains(b[0]));
        let i = choose|i: int| 0 <= i < a.len() && a[i] == b[0];
        if j > 0 {
            assert(before(b[0], b[j]));
            if i > 0 {
                assert(before(a[0], a[i]));
            }
        }
        let x = a.skip(1);
        let y = b.skip(1);
        assert forall|v: T| #[trigger] x.contains(v) <==> y.contains(v) by {
            if x.contains(v) {
                let k = choose|k: int| 0 <= k < x.len() && x[k] == v;
                assert(a[k + 1] == v);
                assert(a.contains(v));
                assert(b.contains(v));
                let l = choose|l: int| 0 <= l < b.len() && b[l] == v;
                assert(before(a[0], a[k + 1]));
                assert(l > 0);
                assert(y[l - 1] == v);
            }
            if y.contains(v) {
                let k = choose|k: int| 0 <= k < y.len() && y[k] == v;
                assert(b[k + 1] == v);
                assert(b.contains(v));
                assert(a.contains(v));
                let l = choose|l: int| 0 <= l < a.len() && a[l] == v;
                assert(before(b[0], b[k + 1]));
                assert(l > 0);
                assert(x[l - 1] == v);
            }
        }
        lemma_sorted_lists_equal(x, y, before);
        assert(a =~= seq![a[0]] + x);
        assert(b =~= seq![b[0]] + y);
    }
}

/// A stable order is the only one.
pub proof fn law_stable_order_is_unique(
    keys: Seq<Seq<u64>>,
    a: Seq<usize>,
    b: Seq<usize>,
    lo: int,
    hi: int,
)
    requires
        0 <= lo <= hi <= keys.len() <= usize::MAX,
        is_stable_order(keys, a, lo, hi),
        is_stable_order(keys, b, lo, hi),
    ensures
        a == b,
{
    let before = |x: usize, y: usize| comes_before(keys, x as int, y as int);
    assert forall|x: usize, y: usize| #[trigger] before(x, y) implies !before(y, x) by {
        if before(y, x) && keys[x as int] != keys[y as int] {
            law_lex_le_antisymmetric(keys[x as int], keys[y as int]);
        }
    }
    assert forall|v: usize| #[trigger] a.contains(v) <==> b.contains(v) by {
        if a.contains(v) {
            let k = choose|k: int| 0 <= k < a.len() && a[k] == v;
            assert(b.contains((v as int) as usize));
        }
        if b.contains(v) {
            let k = choose|k: int| 0 <= k < b.len() && b[k] == v;
            assert(a.contains((v as int) as usize));
        }
    }
    lemma_sorted_lists_equal(a, b, before);
}

proof fn lemma_one_comes_before(keys: Seq<Seq<u64>>, i: int, j: int)
    requires
        i != j,
    ensures
        comes_before(keys, i, j) || comes_before(keys, j, i),
{
    law_lex_le_total(keys[i], keys[j]);
}

/// Where position `x` belongs among the first `k` of a sorted list of positions.
proof fn lemma_insertion_point(keys: Seq<Seq<u64>>, order: Seq<usize>, x: int, k: int) -> (p: int)
    requires
        0 <= k <= order.len(),
        forall|i: int| 0 <= i < order.len() ==> #[trigger] order[i] != x,
        forall|i: int, j: int|
            0 <= i < j < order.len() ==> comes_before(
                keys,
                #[trigger] order[i] as int,
                #[trigger] order[j] as int,
            ),
    ensures
        0 <= p <= k,
        forall|i: int| 0 <= i < p ==> comes_before(keys, #[trigger] order[i] as int, x),
        forall|i: int| p <= i < k ==> comes_before(keys, x, #[trigger] order[i] as int),
    decreases k,
{
    if k == 0 {
        0
    } else {
        let last = order[k - 1] as int;
        lemma_one_comes_before(keys, last, x);
        if comes_before(keys, last, x) {
            assert forall|i: int| 0 <= i < k implies comes_before(
                keys,
                #[trigger] order[i] as int,
                x,
            ) by {
                if i < k - 1 {
                    lemma_before_transitive(keys, order[i] as int, last, x);
                }
            }
            k
        } else {
            lemma_insertion_point(keys, order, x, k - 1)
        }
    }
}

/// Every list of keys has a stable order.
pub proof fn law_stable_order_exists(keys: Seq<Seq<u64>>, n: int) -> (order: Seq<usize>)
    requires
        0 <= n <= keys.len() <= usize::MAX,
    ensures
        is_stable_order(keys, order, 0, n),
    decreases n,
{
    if n == 0 {
        let order = Seq::<usize>::empty();
        order
    } else {
        let before = law_stable_order_exists(keys, n - 1);
        let x = n - 1;
        let p = lemma_insertion_point(keys, before, x, before.len() as int);
        let order = before.insert(p, x as usize);
        assert forall|i: int, j: int| 0 <= i < j < order.len() implies comes_before(
            keys,
            #[trigger] order[i] as int,
            #[trigger] order[j] as int,
        ) by {
            let a = if i < p {
                i
            } else {
                i - 1
            };
            let b = if j < p {
                j
            } else {
                j - 1
            };
            if i != p {
                assert(order[i] == before[a]);
            }
            if j != p {
                assert(order[j] == before[b]);
            }
        }
        assert forall|y: int| 0 <= y < n implies #[trigger] order.contains(y as usize) by {
            if y == x {
                assert(order[p] == y as usize);
            } else {
                assert(before.contains(y as usize));
                let k = choose|k: int| 0 <= k < before.len() && before[k] == y as usize;
                if k < p {
                    assert(order[k] == y as usize);
                } else {
                    assert(order[k + 1] == y as usize);
                }
            }
        }
        order
    }
}

/// Keys are ordered by the first place where they differ.
pub proof fn law_the_first_difference_decides(a: Seq<u64>, b: Seq<u64>, k: int)
    requires
        0 <= k < a.len(),
        k < b.len(),
        forall|i: int| 0 <= i < k ==> #[trigger] a[i] == b[i],
        a[k] != b[k],
    ensures
        lex_le(a, b) <==> a[k] < b[k],
    decreases k,
{
    if k > 0 {
        assert(a[0] == b[0]);
        let x = a.skip(1);
        let y = b.skip(1);
        assert forall|i: int| 0 <= i < k - 1 implies #[trigger] x[i] == y[i] by {
            assert(x[i] == a[i + 1] && y[i] == b[i + 1]);
        }
        law_the_first_difference_decides(x, y, k - 1);
    }
}

/// A key that starts another one comes before it, and not behind it unless they are equal.
pub proof fn law_a_start_comes_first(a: Seq<u64>, b: Seq<u64>)
    requires
        a.len() <= b.len(),
        forall|i: int| 0 <= i < a.len() ==> #[trigger] a[i] == b[i],
    ensures
        lex_le(a, b),
        lex_le(b, a) <==> a.len() == b.len(),
    decreases a.len(),
{
    if a.len() > 0 {
        assert(a[0] == b[0]);
        let x = a.skip(1);
        let y = b.skip(1);
        assert forall|i: int| 0 <= i < x.len() implies #[trigger] x[i] == y[i] by {
            assert(x[i] == a[i + 1] && y[i] == b[i + 1]);
        }
        law_a_start_comes_first(x, y);
    }
}

/// A stable order lists every position once, lower keys before higher ones, and of equal keys
/// the earlier one first.
pub proof fn law_a_stable_order_sorts(keys: Seq<Seq<u64>>, i: int, j: int)
    requires
        keys.len() <= usize::MAX,
        0 <= i < j < keys.len(),
    ensures
        ({
            let order = stable_order(keys);
            &&& order.len() == keys.len()
            &&& order[i] < keys.len()
            &&& order[j] < keys.len()
            &&& order[i] != order[j]
            &&& order.contains(i as usize)
            &&& order.contains(j as usize)
            &&& lex_le(keys[order[i] as int], keys[order[j] as int])
            &&& keys[order[i] as int] == keys[order[j] as int] ==> order[i] < order[j]
        }),
{
    let witness = law_stable_order_exists(keys, keys.len() as int);
    assert(is_stable_order(keys, witness, 0, keys.len() as int));
    let order = stable_order(keys);
    assert(is_stable_order(keys, order, 0, keys.len() as int));
    assert(comes_before(keys, order[i] as int, order[j] as int));
    law_lex_le_reflexive(keys[order[i] as int]);
}

/// What two keys start with alike does not count for their order.
pub proof fn law_a_common_start_does_not_count(p: Seq<u64>, s: Seq<u64>, t: Seq<u64>)
    ensures
        lex_le(p + s, p + t) == lex_le(s, t),
    decreases p.len(),
{
    if p.len() == 0 {
        assert(p + s =~= s);
        assert(p + t =~= t);
    } else {
        assert((p + s).skip(1) =~= p.skip(1) + s);
        assert((p + t).skip(1) =~= p.skip(1) + t);
        assert((p + s)[0] == (p + t)[0]);
        law_a_common_start_does_not_count(p.skip(1), s, t);
    }
}

/// The views of keys are the numbers of each, in their order.
pub proof fn law_views_of_keys(keys: Seq<Vec<u64>>, i: int)
    requires
        0 <= i < keys.len(),
    ensures
        key_views(keys).len() == keys.len(),
        key_views(keys)[i] == keys[i]@,
{
}

} // verus!
