//! Sorting by a total order on views, in O(n log n) comparisons.
use vstd::prelude::*;
use std::collections::VecDeque;

verus! {

/// A type whose values can be put in order by their views.
pub trait Ordered: View + Sized {
    /// Whether `a` may come before `b`: a total preorder on the views of
    /// comparable values.
    spec fn leq(a: Self::V, b: Self::V) -> bool;

    /// The values the comparison is defined on.
    spec fn comparable(a: Self::V) -> bool;

    /// Compare two values.
    fn leq_exec(&self, other: &Self) -> (r: bool)
        requires
            Self::comparable(self@),
            Self::comparable(other@),
        ensures
            r == Self::leq(self@, other@),
    ;

    /// Any two values can be ordered.
    proof fn lemma_total(a: Self::V, b: Self::V)
        ensures
            Self::leq(a, b) || Self::leq(b, a),
    ;

    proof fn lemma_transitive(a: Self::V, b: Self::V, c: Self::V)
        requires
            Self::leq(a, b),
            Self::leq(b, c),
        ensures
            Self::leq(a, c),
    ;
}

pub open spec fn views_of<T: View>(s: Seq<T>) -> Seq<T::V> {
    Seq::new(s.len(), |i: int| s[i]@)
}

/// No view comes after one listed behind it.
pub open spec fn sorted_views<T: Ordered>(s: Seq<T::V>) -> bool {
    forall|i: int, j: int| 0 <= i < j < s.len() ==> T::leq(#[trigger] s[i], #[trigger] s[j])
}

pub open spec fn all_comparable<T: Ordered>(s: Seq<T::V>) -> bool {
    forall|i: int| 0 <= i < s.len() ==> T::comparable(#[trigger] s[i])
}

/// Merge two sorted runs into one.
fn merge<T: Ordered>(a: VecDeque<T>, b: VecDeque<T>) -> (r: VecDeque<T>)
    requires
        sorted_views::<T>(views_of(a@)),
        sorted_views::<T>(views_of(b@)),
        all_comparable::<T>(views_of(a@)),
        all_comparable::<T>(views_of(b@)),
    ensures
        views_of(r@).to_multiset() == views_of(a@).to_multiset().add(views_of(b@).to_multiset()),
        sorted_views::<T>(views_of(r@)),
        all_comparable::<T>(views_of(r@)),
{
    broadcast use vstd::seq_lib::group_to_multiset_ensures;
    let ghost total = views_of(a@).to_multiset().add(views_of(b@).to_multiset());
    let mut a = a;
    let mut b = b;
    let mut out: VecDeque<T> = VecDeque::new();
    assert(views_of(out@) =~= Seq::<T::V>::empty());
    while a.len() > 0 || b.len() > 0
        invariant
            sorted_views::<T>(views_of(a@)),
            sorted_views::<T>(views_of(b@)),
            sorted_views::<T>(views_of(out@)),
            all_comparable::<T>(views_of(a@)),
            all_comparable::<T>(views_of(b@)),
            all_comparable::<T>(views_of(out@)),
            views_of(out@).to_multiset().add(views_of(a@).to_multiset()).add(views_of(b@).to_multiset()) == total,
            forall|i: int, j: int|
                0 <= i < out@.len() && 0 <= j < a@.len() ==> T::leq(#[trigger] views_of(out@)[i], #[trigger] views_of(a@)[j]),
            forall|i: int, j: int|
                0 <= i < out@.len() && 0 <= j < b@.len() ==> T::leq(#[trigger] views_of(out@)[i], #[trigger] views_of(b@)[j]),
        decreases a@.len() + b@.len(),
    {
        let ghost va = views_of(a@);
        let ghost vb = views_of(b@);
        let ghost vo = views_of(out@);
        let take_a = if a.len() == 0 {
            false
        } else if b.len() == 0 {
            true
        } else {
            assert(va[0] == a@[0]@);
            assert(vb[0] == b@[0]@);
            a[0].leq_exec(&b[0])
        };
        if take_a {
            let x = a.pop_front().unwrap();
            out.push_back(x);
            proof {
                assert(x@ == va[0]);
                assert(views_of(a@) =~= va.subrange(1, va.len() as int));
                assert(views_of(out@) =~= vo.push(va[0]));
                assert(va.remove(0) =~= va.subrange(1, va.len() as int));
                vo.to_multiset_ensures();
                va.to_multiset_ensures();
                assert(vo.push(va[0]).to_multiset() == vo.to_multiset().insert(va[0]));
                assert(va.remove(0).to_multiset() == va.to_multiset().remove(va[0]));
                assert(va.to_multiset().count(va[0]) > 0);
                assert(views_of(out@).to_multiset().add(views_of(a@).to_multiset())
                    =~= vo.to_multiset().add(va.to_multiset()));
                if vb.len() > 0 {
                    assert forall|j: int| 0 <= j < vb.len() implies T::leq(va[0], #[trigger] vb[j]) by {
                        if j > 0 {
                            T::lemma_transitive(va[0], vb[0], vb[j]);
                        }
                    }
                }
                let no = views_of(out@);
                let na = views_of(a@);
                assert forall|i: int, j: int| 0 <= i < j < no.len() implies T::leq(#[trigger] no[i], #[trigger] no[j]) by {
                    if j == no.len() - 1 {
                        assert(no[j] == va[0]);
                        assert(no[i] == vo[i]);
                    } else {
                        assert(no[i] == vo[i]);
                        assert(no[j] == vo[j]);
                    }
                }
                assert forall|i: int, j: int| 0 <= i < no.len() && 0 <= j < na.len() implies T::leq(#[trigger] no[i], #[trigger] na[j]) by {
                    assert(na[j] == va[j + 1]);
                    if i == no.len() - 1 {
                        assert(no[i] == va[0]);
                    } else {
                        assert(no[i] == vo[i]);
                    }
                }
                assert forall|i: int, j: int| 0 <= i < no.len() && 0 <= j < vb.len() implies T::leq(#[trigger] no[i], #[trigger] views_of(b@)[j]) by {
                    if i == no.len() - 1 {
                        assert(no[i] == va[0]);
                    } else {
                        assert(no[i] == vo[i]);
                    }
                }
                assert forall|i: int, j: int| 0 <= i < j < na.len() implies T::leq(#[trigger] na[i], #[trigger] na[j]) by {
                    assert(na[i] == va[i + 1]);
                    assert(na[j] == va[j + 1]);
                }
                assert forall|i: int| 0 <= i < na.len() implies T::comparable(#[trigger] na[i]) by {
                    assert(na[i] == va[i + 1]);
                }
                assert forall|i: int| 0 <= i < no.len() implies T::comparable(#[trigger] no[i]) by {
                    if i < vo.len() {
                        assert(no[i] == vo[i]);
                    }
                }
            }
        } else {
            proof {
                if va.len() > 0 {
                    T::lemma_total(va[0], vb[0]);
                    assert forall|j: int| 0 <= j < va.len() implies T::leq(vb[0], #[trigger] va[j]) by {
                        if j > 0 {
                            T::lemma_transitive(vb[0], va[0], va[j]);
                        }
                    }
                }
            }
            let x = b.pop_front().unwrap();
            out.push_back(x);
            proof {
                assert(x@ == vb[0]);
                assert(views_of(b@) =~= vb.subrange(1, vb.len() as int));
                assert(views_of(out@) =~= vo.push(vb[0]));
                assert(vb.remove(0) =~= vb.subrange(1, vb.len() as int));
                vo.to_multiset_ensures();
                vb.to_multiset_ensures();
                assert(vo.push(vb[0]).to_multiset() == vo.to_multiset().insert(vb[0]));
                assert(vb.remove(0).to_multiset() == vb.to_multiset().remove(vb[0]));
                assert(vb.to_multiset().count(vb[0]) > 0);
                assert(views_of(out@).to_multiset().add(va.to_multiset()).add(views_of(b@).to_multiset())
                    =~= vo.to_multiset().add(va.to_multiset()).add(vb.to_multiset()));
                let no = views_of(out@);
                let nb = views_of(b@);
                assert forall|i: int, j: int| 0 <= i < j < no.len() implies T::leq(#[trigger] no[i], #[trigger] no[j]) by {
                    if j == no.len() - 1 {
                        assert(no[j] == vb[0]);
                        assert(no[i] == vo[i]);
                    } else {
                        assert(no[i] == vo[i]);
                        assert(no[j] == vo[j]);
                    }
                }
                assert forall|i: int, j: int| 0 <= i < no.len() && 0 <= j < nb.len() implies T::leq(#[trigger] no[i], #[trigger] nb[j]) by {
                    assert(nb[j] == vb[j + 1]);
                    if i == no.len() - 1 {
                        assert(no[i] == vb[0]);
                    } else {
                        assert(no[i] == vo[i]);
                    }
                }
                assert forall|i: int, j: int| 0 <= i < no.len() && 0 <= j < va.len() implies T::leq(#[trigger] no[i], #[trigger] views_of(a@)[j]) by {
                    if i == no.len() - 1 {
                        assert(no[i] == vb[0]);
                    } else {
                        assert(no[i] == vo[i]);
                    }
                }
                assert forall|i: int, j: int| 0 <= i < j < nb.len() implies T::leq(#[trigger] nb[i], #[trigger] nb[j]) by {
                    assert(nb[i] == vb[i + 1]);
                    assert(nb[j] == vb[j + 1]);
                }
                assert forall|i: int| 0 <= i < nb.len() implies T::comparable(#[trigger] nb[i]) by {
                    assert(nb[i] == vb[i + 1]);
                }
                assert forall|i: int| 0 <= i < no.len() implies T::comparable(#[trigger] no[i]) by {
                    if i < vo.len() {
                        assert(no[i] == vo[i]);
                    }
                }
            }
        }
    }
    proof {
        assert(views_of(a@).to_multiset() =~= vstd::multiset::Multiset::empty());
        assert(views_of(b@).to_multiset() =~= vstd::multiset::Multiset::empty());
        assert(views_of(out@).to_multiset().add(views_of(a@).to_multiset()).add(views_of(b@).to_multiset())
            =~= views_of(out@).to_multiset());
    }
    out
}

/// Merge sort.
fn sort_deque<T: Ordered>(v: VecDeque<T>) -> (r: VecDeque<T>)
    requires
        all_comparable::<T>(views_of(v@)),
    ensures
        views_of(r@).to_multiset() == views_of(v@).to_multiset(),
        sorted_views::<T>(views_of(r@)),
        all_comparable::<T>(views_of(r@)),
    decreases v@.len(),
{
    if v.len() <= 1 {
        return v;
    }
    let mid = v.len() / 2;
    let mut left = v;
    let ghost whole = left@;
    let right = left.split_off(mid);
    proof {
        assert(views_of(whole) =~= views_of(left@) + views_of(right@));
        vstd::seq_lib::lemma_multiset_commutative(views_of(left@), views_of(right@));
        assert forall|i: int| 0 <= i < views_of(left@).len() implies T::comparable(#[trigger] views_of(left@)[i]) by {
            assert(views_of(left@)[i] == views_of(whole)[i]);
        }
        assert forall|i: int| 0 <= i < views_of(right@).len() implies T::comparable(#[trigger] views_of(right@)[i]) by {
            assert(views_of(right@)[i] == views_of(whole)[i + mid]);
        }
    }
    let l = sort_deque(left);
    let r = sort_deque(right);
    merge(l, r)
}

/// Put a vector in order: a reordering of it (the same views, each as often)
/// in which no value comes after one listed behind it.
pub fn sort_by_order<T: Ordered>(v: Vec<T>) -> (r: Vec<T>)
    requires
        all_comparable::<T>(views_of(v@)),
    ensures
        views_of(r@).to_multiset() == views_of(v@).to_multiset(),
        sorted_views::<T>(views_of(r@)),
{
    let ghost orig = v@;
    let mut v = v;
    let mut d: VecDeque<T> = VecDeque::new();
    while v.len() > 0
        invariant
            v@ + d@ == orig,
        decreases v@.len(),
    {
        let ghost before_v = v@;
        let ghost before_d = d@;
        let x = v.pop().unwrap();
        d.push_front(x);
        assert(v@ + d@ =~= before_v + before_d);
    }
    assert(d@ =~= orig);
    let sorted = sort_deque(d);
    let mut d = sorted;
    let ghost s = d@;
    let mut out: Vec<T> = Vec::new();
    while d.len() > 0
        invariant
            out@ + d@ == s,
        decreases d@.len(),
    {
        let ghost before_o = out@;
        let ghost before_d = d@;
        let x = d.pop_front().unwrap();
        out.push(x);
        assert(out@ + d@ =~= before_o + before_d);
    }
    assert(out@ =~= s);
    out
}

} // verus!
