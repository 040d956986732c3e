//! Stable orderings of indices by an integer key.
use vstd::prelude::*;

verus! {

/// `a` comes before `b`: a smaller key, or an equal key and an earlier index
/// (the order a stable sort leaves equal keys in).
pub open spec fn key_before(keys: Seq<u64>, a: int, b: int) -> bool {
    keys[a] < keys[b] || (keys[a] == keys[b] && a < b)
}

/// `o` lists each index in `lo..hi` exactly once, in stable ascending key
/// order.
pub open spec fn is_range_order(keys: Seq<u64>, lo: int, hi: int, o: Seq<usize>) -> bool {
    &&& o.len() == hi - lo
    &&& forall|i: int| 0 <= i < o.len() ==> lo <= (#[trigger] o[i]) < hi
    &&& forall|k: usize| lo <= k < hi ==> #[trigger] o.contains(k)
    &&& forall|i: int, j: int|
        0 <= i < j < o.len() ==> key_before(keys, #[trigger] o[i] as int, #[trigger] o[j] as int)
}

/// `o` lists every index of `keys` exactly once, in stable ascending key
/// order.
pub open spec fn is_order_of(keys: Seq<u64>, o: Seq<usize>) -> bool {
    is_range_order(keys, 0, keys.len() as int, o)
}

/// The indices of `keys` in stable ascending key order.
pub fn sort_indices(keys: &Vec<u64>) -> (r: Vec<usize>)
    ensures
        is_order_of(keys@, r@),
{
    sort_range(keys, 0, keys.len())
}

/// The indices `lo..hi` in stable ascending key order (merge sort).
fn sort_range(keys: &Vec<u64>, lo: usize, hi: usize) -> (r: Vec<usize>)
    requires
        lo <= hi <= keys@.len(),
    ensures
        is_range_order(keys@, lo as int, hi as int, r@),
    decreases hi - lo,
{
    if hi - lo <= 1 {
        let mut r: Vec<usize> = Vec::new();
        if hi - lo == 1 {
            r.push(lo);
            assert(r@[0] == lo);
        }
        return r;
    }
    let mid = lo + (hi - lo) / 2;
    let left = sort_range(keys, lo, mid);
    let right = sort_range(keys, mid, hi);
    merge(keys, &left, &right, lo, mid, hi)
}

fn merge(keys: &Vec<u64>, left: &Vec<usize>, right: &Vec<usize>, lo: usize, mid: usize, hi: usize) -> (r: Vec<usize>)
    requires
        lo <= mid <= hi <= keys@.len(),
        is_range_order(keys@, lo as int, mid as int, left@),
        is_range_order(keys@, mid as int, hi as int, right@),
    ensures
        is_range_order(keys@, lo as int, hi as int, r@),
{
    let mut out: Vec<usize> = Vec::new();
    let mut i: usize = 0;
    let mut j: usize = 0;
    while i < left.len() || j < right.len()
        invariant
            lo <= mid <= hi <= keys@.len(),
            i <= left@.len(),
            j <= right@.len(),
            is_range_order(keys@, lo as int, mid as int, left@),
            is_range_order(keys@, mid as int, hi as int, right@),
            out@.len() == i + j,
            forall|x: usize| #[trigger]
                out@.contains(x) <==> (left@.take(i as int).contains(x) || right@.take(
                    j as int,
                ).contains(x)),
            forall|a: int, b: int|
                0 <= a < b < out@.len() ==> key_before(
                    keys@,
                    #[trigger] out@[a] as int,
                    #[trigger] out@[b] as int,
                ),
            forall|a: int, k: int|
                0 <= a < out@.len() && i <= k < left@.len() ==> key_before(
                    keys@,
                    #[trigger] out@[a] as int,
                    #[trigger] left@[k] as int,
                ),
            forall|a: int, k: int|
                0 <= a < out@.len() && j <= k < right@.len() ==> key_before(
                    keys@,
                    #[trigger] out@[a] as int,
                    #[trigger] right@[k] as int,
                ),
        decreases left@.len() + right@.len() - i - j,
    {
        let ghost prev = out@;
        let take_left = i < left.len() && (j >= right.len() || keys[left[i]] <= keys[right[j]]);
        let x = if take_left {
            left[i]
        } else {
            right[j]
        };
        out.push(x);
        assert(out@ == prev.push(x));
        if take_left {
            assert forall|k: int| j <= k < right@.len() implies key_before(
                keys@,
                x as int,
                #[trigger] right@[k] as int,
            ) by {
                if k > j {
                    assert(key_before(keys@, right@[j as int] as int, right@[k] as int));
                }
            }
            assert forall|k: int| i + 1 <= k < left@.len() implies key_before(
                keys@,
                x as int,
                #[trigger] left@[k] as int,
            ) by {}
            assert(left@.take(i + 1) == left@.take(i as int).push(x));
            i += 1;
        } else {
            assert forall|k: int| i <= k < left@.len() implies key_before(
                keys@,
                x as int,
                #[trigger] left@[k] as int,
            ) by {
                if k > i {
                    assert(key_before(keys@, left@[i as int] as int, left@[k] as int));
                }
            }
            assert forall|k: int| j + 1 <= k < right@.len() implies key_before(
                keys@,
                x as int,
                #[trigger] right@[k] as int,
            ) by {}
            assert(right@.take(j + 1) == right@.take(j as int).push(x));
            j += 1;
        }
        let ghost lt = left@.take(i as int);
        let ghost rt = right@.take(j as int);
        let ghost plt = if take_left { left@.take(i - 1) } else { lt };
        let ghost prt = if take_left { rt } else { right@.take(j - 1) };
        assert(take_left ==> lt == plt.push(x));
        assert(!take_left ==> rt == prt.push(x));
        assert forall|y: usize| #[trigger] out@.contains(y) <==> (lt.contains(y) || rt.contains(y)) by {
            if out@.contains(y) {
                if y == x {
                    if take_left {
                        assert(lt[lt.len() - 1] == x);
                    } else {
                        assert(rt[rt.len() - 1] == x);
                    }
                } else {
                    let m = choose|m: int| 0 <= m < out@.len() && out@[m] == y;
                    assert(prev[m] == y);
                    assert(prev.contains(y));
                    if plt.contains(y) {
                        let q = choose|q: int| 0 <= q < plt.len() && plt[q] == y;
                        assert(lt[q] == y);
                    } else {
                        let q = choose|q: int| 0 <= q < prt.len() && prt[q] == y;
                        assert(rt[q] == y);
                    }
                }
            }
            if lt.contains(y) || rt.contains(y) {
                if y == x {
                    assert(out@[out@.len() - 1] == x);
                } else {
                    if lt.contains(y) {
                        let q = choose|q: int| 0 <= q < lt.len() && lt[q] == y;
                        if take_left {
                            assert(q < plt.len());
                            assert(plt[q] == y);
                        } else {
                            assert(plt[q] == y);
                        }
                        assert(plt.contains(y));
                    } else {
                        let q = choose|q: int| 0 <= q < rt.len() && rt[q] == y;
                        if !take_left {
                            assert(q < prt.len());
                            assert(prt[q] == y);
                        } else {
                            assert(prt[q] == y);
                        }
                        assert(prt.contains(y));
                    }
                    assert(prev.contains(y));
                    let m = choose|m: int| 0 <= m < prev.len() && prev[m] == y;
                    assert(out@[m] == y);
                }
            }
        }
    }
    assert(left@.take(left@.len() as int) =~= left@);
    assert(right@.take(right@.len() as int) =~= right@);
    assert forall|a: int| 0 <= a < out@.len() implies lo <= (#[trigger] out@[a]) < hi by {
        assert(out@.contains(out@[a]));
        if left@.contains(out@[a]) {
            let m = choose|m: int| 0 <= m < left@.len() && left@[m] == out@[a];
        } else {
            let m = choose|m: int| 0 <= m < right@.len() && right@[m] == out@[a];
        }
    }
    assert forall|k: usize| lo <= k < hi implies #[trigger] out@.contains(k) by {
        if k < mid {
            assert(left@.contains(k));
        } else {
            assert(right@.contains(k));
        }
    }
    out
}

} // verus!
