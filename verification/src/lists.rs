//! Lists of distinct node numbers.

use vstd::prelude::*;

verus! {

/// Whether `list` names nodes below `n`, none of them twice.
pub open spec fn list_ok(list: Seq<u32>, n: int) -> bool {
    &&& list.no_duplicates()
    &&& forall|i: int| 0 <= i < list.len() ==> (#[trigger] list[i]) < n
}

/// `list` without the entry `x`, if it has one.
pub open spec fn drop_value(list: Seq<u32>, x: u32) -> Seq<u32> {
    if list.contains(x) {
        list.remove(choose|i: int| 0 <= i < list.len() && list[i] == x)
    } else {
        list
    }
}

/// In a list without repetition the entry `x` has one place.
pub proof fn lemma_drop_value(list: Seq<u32>, x: u32, i: int)
    requires
        list.no_duplicates(),
        0 <= i < list.len(),
        list[i] == x,
    ensures
        drop_value(list, x) == list.remove(i),
        drop_value(list, x).no_duplicates(),
        !drop_value(list, x).contains(x),
        forall|y: u32| y != x ==> (drop_value(list, x).contains(y) <==> list.contains(y)),
{
    let j = choose|j: int| 0 <= j < list.len() && list[j] == x;
    assert(j == i);
    let r = list.remove(i);
    assert forall|a: int, b: int| 0 <= a < r.len() && 0 <= b < r.len() && a != b implies r[a]
        != r[b] by {
        let a0 = if a < i { a } else { a + 1 };
        let b0 = if b < i { b } else { b + 1 };
        assert(r[a] == list[a0] && r[b] == list[b0]);
    }
    assert forall|y: u32| y != x implies (r.contains(y) <==> list.contains(y)) by {
        if r.contains(y) {
            let a = choose|a: int| 0 <= a < r.len() && r[a] == y;
            let a0 = if a < i { a } else { a + 1 };
            assert(list[a0] == y);
        }
        if list.contains(y) {
            let a0 = choose|a: int| 0 <= a < list.len() && list[a] == y;
            let a = if a0 < i { a0 } else { a0 - 1 };
            assert(r[a] == y);
        }
    }
    if r.contains(x) {
        let a = choose|a: int| 0 <= a < r.len() && r[a] == x;
        let a0 = if a < i { a } else { a + 1 };
        assert(list[a0] == x);
    }
}

/// A list of distinct numbers below `n` has at most `n` entries.
pub proof fn lemma_list_len(list: Seq<u32>, n: int)
    requires
        list_ok(list, n),
        n >= 0,
    ensures
        list.len() <= n,
    decreases n,
{
    if n == 0 {
        if list.len() > 0 {
            assert(list[0] < 0);
        }
    } else {
        let top = (n - 1) as u32;
        if list.contains(top) && n - 1 <= u32::MAX {
            let i = choose|i: int| 0 <= i < list.len() && list[i] == top;
            lemma_drop_value(list, top, i);
            let r = list.remove(i);
            assert forall|a: int| 0 <= a < r.len() implies (#[trigger] r[a]) < n - 1 by {
                let a0 = if a < i {
                    a
                } else {
                    a + 1
                };
                assert(r[a] == list[a0]);
                assert(r.contains(r[a]));
            }
            lemma_list_len(r, n - 1);
        } else {
            assert forall|a: int| 0 <= a < list.len() implies (#[trigger] list[a]) < n - 1 by {
                assert(list.contains(list[a]));
            }
            lemma_list_len(list, n - 1);
        }
    }
}

} // verus!
