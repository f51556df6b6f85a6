//! Strictly sorted sequences: a strictly sorted sequence is determined by its elements.

use vstd::prelude::*;

verus! {

/// `s` is strictly increasing under the strict order `lt`.
pub open spec fn sorted_by<A>(s: Seq<A>, lt: spec_fn(A, A) -> bool) -> bool {
    forall|i: int, j: int| 0 <= i < j < s.len() ==> lt(#[trigger] s[i], #[trigger] s[j])
}

/// `lt` is asymmetric (and so irreflexive).
pub open spec fn asymmetric<A>(lt: spec_fn(A, A) -> bool) -> bool {
    forall|x: A, y: A| #![trigger lt(x, y), lt(y, x)] !(lt(x, y) && lt(y, x))
}

/// Two strictly sorted sequences with the same elements are equal.
pub proof fn lemma_sorted_unique<A>(a: Seq<A>, b: Seq<A>, lt: spec_fn(A, A) -> bool)
    requires
        asymmetric(lt),
        sorted_by(a, lt),
        sorted_by(b, lt),
        forall|v: A| #![trigger a.contains(v)] #![trigger b.contains(v)] a.contains(v) <==> b.contains(v),
    ensures
        a == b,
    decreases a.len(),
{
    if a.len() == 0 {
        if b.len() > 0 {
            assert(b.contains(b[0]));
        }
        assert(a =~= b);
    } else if b.len() == 0 {
        assert(a.contains(a[0]));
    } else {
        assert(a.contains(a[0]));
        assert(b.contains(b[0]));
        let i = choose|i: int| 0 <= i < b.len() && b[i] == a[0];
        let j = choose|j: int| 0 <= j < a.len() && a[j] == b[0];
        assert(a[0] == b[0]) by {
            if i > 0 && j > 0 {
                assert(lt(b[0], b[i]));
                assert(lt(a[0], a[j]));
                assert(!(lt(a[0], b[0]) && lt(b[0], a[0])));
            } else if i > 0 {
                assert(b[0] == a[0]);
            }
        }
        let a1 = a.drop_first();
        let b1 = b.drop_first();
        assert(sorted_by(a1, lt)) by {
            assert forall|x: int, y: int| 0 <= x < y < a1.len() implies lt(#[trigger] a1[x], #[trigger] a1[y]) by {
                assert(a1[x] == a[x + 1] && a1[y] == a[y + 1]);
            }
        }
        assert(sorted_by(b1, lt)) by {
            assert forall|x: int, y: int| 0 <= x < y < b1.len() implies lt(#[trigger] b1[x], #[trigger] b1[y]) by {
                assert(b1[x] == b[x + 1] && b1[y] == b[y + 1]);
            }
        }
        assert forall|v: A| #![trigger a1.contains(v)] #![trigger b1.contains(v)] a1.contains(v) <==> b1.contains(v) by {
            if a1.contains(v) {
                let x = choose|x: int| 0 <= x < a1.len() && a1[x] == v;
                assert(a[x + 1] == v && lt(a[0], a[x + 1]));
                assert(a.contains(v));
                let y = choose|y: int| 0 <= y < b.len() && b[y] == v;
                if y == 0 {
                    assert(!(lt(a[0], a[x + 1]) && lt(a[x + 1], a[0])));
                }
                assert(b1[y - 1] == v);
            }
            if b1.contains(v) {
                let x = choose|x: int| 0 <= x < b1.len() && b1[x] == v;
                assert(b[x + 1] == v && lt(b[0], b[x + 1]));
                assert(b.contains(v));
                let y = choose|y: int| 0 <= y < a.len() && a[y] == v;
                if y == 0 {
                    assert(!(lt(b[0], b[x + 1]) && lt(b[x + 1], b[0])));
                }
                assert(a1[y - 1] == v);
            }
        }
        lemma_sorted_unique(a1, b1, lt);
        assert(a =~= b) by {
            assert forall|k: int| 0 <= k < a.len() implies a[k] == b[k] by {
                if k > 0 {
                    assert(a[k] == a1[k - 1] && b[k] == b1[k - 1]);
                }
            }
        }
    }
}

} // verus!
