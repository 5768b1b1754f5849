use vstd::prelude::*;
use vstd::std_specs::cmp::OrdSpec;

verus! {

/// The comparisons of `T` make a total order.
pub open spec fn ordered<T: Ord>() -> bool {
    vstd::laws_cmp::obeys_cmp::<T>()
}

/// `x` does not come after `y`.
pub open spec fn in_order<T: Ord>(x: T, y: T) -> bool {
    x.cmp_spec(&y) != std::cmp::Ordering::Greater
}

/// No element comes after a later one.
pub open spec fn sorted<T: Ord>(s: Seq<T>) -> bool {
    forall|i: int, j: int| 0 <= i < j < s.len() ==> in_order(#[trigger] s[i], #[trigger] s[j])
}

/// Order passes on from one pair to the next.
proof fn lemma_in_order_transitive<T: Ord>(x: T, y: T, z: T)
    requires
        ordered::<T>(),
        in_order(x, y),
        in_order(y, z),
    ensures
        in_order(x, z),
{
    reveal(vstd::laws_cmp::obeys_partial_cmp_spec_properties);
    reveal(vstd::laws_cmp::obeys_cmp_partial_ord);
    reveal(vstd::laws_cmp::obeys_cmp_ord);
    reveal(vstd::laws_eq::obeys_eq_spec_properties);
    assert(z.cmp_spec(&x) == z.cmp_spec(&x));
    assert(y.cmp_spec(&x) == y.cmp_spec(&x));
    assert(z.cmp_spec(&y) == z.cmp_spec(&y));
}

/// Elements are in order exactly when none comes after its neighbour.
pub proof fn law_neighbours_decide<T: Ord>(s: Seq<T>)
    requires
        vstd::laws_cmp::obeys_cmp::<T>(),
    ensures
        ordered::<T>(),
        sorted(s) <==> forall|i: int, j: int|
            #![trigger s[i], s[j]]
            0 <= i && j == i + 1 && j < s.len() ==> s[i].cmp_spec(&s[j])
                != std::cmp::Ordering::Greater,
    decreases s.len(),
{
    let neighbours = forall|i: int, j: int|
        #![trigger s[i], s[j]]
        0 <= i && j == i + 1 && j < s.len() ==> s[i].cmp_spec(&s[j])
            != std::cmp::Ordering::Greater;
    if sorted(s) {
        assert forall|i: int, j: int|
            #![trigger s[i], s[j]]
            0 <= i && j == i + 1 && j < s.len() implies s[i].cmp_spec(&s[j])
            != std::cmp::Ordering::Greater by {
            assert(in_order(s[i], s[j]));
        }
    }
    if neighbours && s.len() > 0 {
        let rest = s.drop_last();
        let last = s.len() - 1;
        law_neighbours_decide(rest);
        law_sorted_grows_at_the_end(rest, s.last());
        assert(rest.push(s.last()) =~= s);
        assert forall|i: int, j: int|
            #![trigger rest[i], rest[j]]
            0 <= i && j == i + 1 && j < rest.len() implies rest[i].cmp_spec(&rest[j])
            != std::cmp::Ordering::Greater by {
            assert(s[i].cmp_spec(&s[j]) != std::cmp::Ordering::Greater);
        }
        if rest.len() > 0 {
            assert(s[last - 1].cmp_spec(&s[last]) != std::cmp::Ordering::Greater);
        }
    }
}

/// One element more keeps the order exactly when the last one before does not come after it.
pub proof fn law_sorted_grows_at_the_end<T: Ord>(s: Seq<T>, x: T)
    requires
        vstd::laws_cmp::obeys_cmp::<T>(),
    ensures
        sorted(Seq::<T>::empty()),
        sorted(s.push(x)) <==> sorted(s) && (s.len() == 0 || s.last().cmp_spec(&x)
            != std::cmp::Ordering::Greater),
{
    let t = s.push(x);
    let n = s.len() - 1;
    if sorted(t) {
        assert forall|i: int, j: int| 0 <= i < j < s.len() implies in_order(
            #[trigger] s[i],
            #[trigger] s[j],
        ) by {
            assert(in_order(t[i], t[j]));
        }
        if s.len() > 0 {
            assert(in_order(t[n], t[n + 1]));
        }
    }
    if sorted(s) && (s.len() == 0 || in_order(s.last(), x)) {
        assert forall|i: int, j: int| 0 <= i < j < t.len() implies in_order(
            #[trigger] t[i],
            #[trigger] t[j],
        ) by {
            if j <= n {
                assert(in_order(s[i], s[j]));
            } else if i < n {
                assert(in_order(s[i], s[n]));
                lemma_in_order_transitive(s[i], s[n], x);
            }
        }
    }
}

/// An element that comes after a later one shows that the elements are not in order, wherever the
/// two are.
pub proof fn law_inversion_is_found<T: Ord>(s: Seq<T>, i: int, j: int)
    requires
        0 <= i < j < s.len(),
        s[i].cmp_spec(&s[j]) == std::cmp::Ordering::Greater,
    ensures
        !sorted(s),
{
    assert(!in_order(s[i], s[j]));
}

/// `gt` tells what is out of order.
fn is_after<T: Ord>(x: &T, y: &T) -> (b: bool)
    ensures
        ordered::<T>() ==> b == !in_order(*x, *y),
{
    proof {
        reveal(vstd::laws_cmp::obeys_cmp_partial_ord);
        reveal(vstd::laws_cmp::obeys_cmp_ord);
    }
    x.gt(y)
}

/// Whether the elements are in ascending order, equal ones beside each other.
pub fn is_sorted<T: Clone + Ord>(a: &[T]) -> (b: bool)
    ensures
        ordered::<T>() ==> b == sorted(a@),
{
    let mut i: usize = 1;
    while i < a.len()
        invariant
            1 <= i,
            a.len() > 0 ==> i <= a.len(),
            ordered::<T>() && i <= a.len() ==> sorted(a@.take(i as int)),
        decreases a.len() - i,
    {
        if is_after(&a[i - 1], &a[i]) {
            return false;
        }
        proof {
            if ordered::<T>() {
                let before = a@.take(i as int);
                let after = a@.take(i + 1);
                assert forall|k: int, l: int| 0 <= k < l < after.len() implies in_order(
                    #[trigger] after[k],
                    #[trigger] after[l],
                ) by {
                    if l < i {
                        assert(in_order(before[k], before[l]));
                    } else if k < i - 1 {
                        assert(in_order(before[k], before[i - 1]));
                        lemma_in_order_transitive(a@[k], a@[i - 1], a@[i as int]);
                    }
                }
            }
        }
        i += 1;
    }
    assert(a@.take(a@.len() as int) =~= a@);
    true
}

} // verus!
