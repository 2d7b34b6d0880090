//! Stable sorting.

use crate::text;
use vstd::prelude::*;

verus! {

/// Values with an order in which some may be of equal rank.
pub trait Ranked: View + Sized {
    /// `a` comes before `b`.
    spec fn before(a: Self::V, b: Self::V) -> bool;

    proof fn before_asymmetric(a: Self::V, b: Self::V)
        requires
            Self::before(a, b),
        ensures
            !Self::before(b, a),
    ;

    proof fn before_negatively_transitive(a: Self::V, b: Self::V, c: Self::V)
        requires
            !Self::before(b, a),
            !Self::before(c, b),
        ensures
            !Self::before(c, a),
    ;

    /// Whether `self` comes before `other`.
    fn is_before(&self, other: &Self) -> (r: bool)
        ensures
            r == Self::before(self@, other@),
    ;
}

/// The sorted values with one more: behind all that it does not come before.
pub open spec fn placed<T: Ranked>(s: Seq<T::V>, x: T::V) -> Seq<T::V>
    decreases s.len(),
{
    if s.len() == 0 || !T::before(x, s.last()) {
        s.push(x)
    } else {
        placed::<T>(s.drop_last(), x).push(s.last())
    }
}

/// The values in order, those of equal rank as they stood.
pub open spec fn sorted<T: Ranked>(s: Seq<T::V>) -> Seq<T::V>
    decreases s.len(),
{
    if s.len() == 0 {
        s
    } else {
        placed::<T>(sorted::<T>(s.drop_last()), s.last())
    }
}

/// No value comes before one in front of it.
pub open spec fn in_order<T: Ranked>(s: Seq<T::V>) -> bool {
    forall|i: int, j: int| 0 <= i < j < s.len() ==> !T::before(#[trigger] s[j], #[trigger] s[i])
}

/// Neither value comes before the other.
pub open spec fn same_rank<T: Ranked>(a: T::V, b: T::V) -> bool {
    !T::before(a, b) && !T::before(b, a)
}

/// The values of the same rank as `y`, as they stand.
pub open spec fn peers<T: Ranked>(s: Seq<T::V>, y: T::V) -> Seq<T::V> {
    s.filter(|z: T::V| same_rank::<T>(z, y))
}

pub open spec fn views<T: View>(s: Seq<T>) -> Seq<T::V> {
    s.map_values(|x: T| x@)
}

proof fn lemma_placed<T: Ranked>(s: Seq<T::V>, x: T::V)
    requires
        in_order::<T>(s),
    ensures
        in_order::<T>(placed::<T>(s, x)),
        placed::<T>(s, x).to_multiset() == s.to_multiset().insert(x),
        placed::<T>(s, x).len() == s.len() + 1,
        s.len() > 0 && T::before(x, s.last()) ==> placed::<T>(s, x).last() == s.last(),
        forall|i: int|
            0 <= i < placed::<T>(s, x).len() ==> (#[trigger] placed::<T>(s, x)[i] == x || s.contains(
                placed::<T>(s, x)[i],
            )),
    decreases s.len(),
{
    broadcast use vstd::seq_lib::group_to_multiset_ensures;

    if s.len() == 0 {
    } else if !T::before(x, s.last()) {
        let r = s.push(x);
        assert forall|i: int, j: int| 0 <= i < j < r.len() implies !T::before(
            #[trigger] r[j],
            #[trigger] r[i],
        ) by {
            if j == s.len() && i < s.len() - 1 {
                T::before_negatively_transitive(r[i], s.last(), x);
            }
        }
        assert forall|i: int| 0 <= i < r.len() implies (#[trigger] r[i] == x || s.contains(r[i])) by {
            if i < s.len() {
                assert(s[i] == r[i]);
            }
        }
    } else {
        let last = s.last();
        let front = s.drop_last();
        lemma_placed::<T>(front, x);
        let mid = placed::<T>(front, x);
        let r = mid.push(last);
        T::before_asymmetric(x, last);
        assert forall|i: int, j: int| 0 <= i < j < r.len() implies !T::before(
            #[trigger] r[j],
            #[trigger] r[i],
        ) by {
            if j == mid.len() && mid[i] != x {
                assert(front.contains(mid[i]));
                let k = choose|k: int| 0 <= k < front.len() && front[k] == mid[i];
                assert(s[k] == mid[i]);
                assert(s[s.len() - 1] == last);
            }
        }
        assert forall|i: int| 0 <= i < r.len() implies (#[trigger] r[i] == x || s.contains(r[i])) by {
            if i < mid.len() {
                if mid[i] != x {
                    let k = choose|k: int| 0 <= k < front.len() && front[k] == mid[i];
                    assert(s[k] == r[i]);
                }
            } else {
                assert(s[s.len() - 1] == r[i]);
            }
        }
        assert(s =~= front.push(last));
        assert(s.to_multiset() == front.to_multiset().insert(last));
        assert(r.to_multiset() =~= s.to_multiset().insert(x));
    }
}

proof fn lemma_placed_keeps_peers<T: Ranked>(s: Seq<T::V>, x: T::V, y: T::V)
    requires
        in_order::<T>(s),
    ensures
        peers::<T>(placed::<T>(s, x), y) == peers::<T>(s.push(x), y),
    decreases s.len(),
{
    if s.len() > 0 && T::before(x, s.last()) {
        let last = s.last();
        let front = s.drop_last();
        let mid = placed::<T>(front, x);
        lemma_placed_keeps_peers::<T>(front, x, y);
        lemma_peers_push::<T>(mid, last, y);
        lemma_peers_push::<T>(front, x, y);
        lemma_peers_push::<T>(front, last, y);
        lemma_peers_push::<T>(s, x, y);
        assert(front.push(last) =~= s);
        if same_rank::<T>(last, y) && same_rank::<T>(x, y) {
            T::before_negatively_transitive(last, y, x);
        }
    }
}

proof fn lemma_peers_push<T: Ranked>(s: Seq<T::V>, x: T::V, y: T::V)
    ensures
        peers::<T>(s.push(x), y) == if same_rank::<T>(x, y) {
            peers::<T>(s, y).push(x)
        } else {
            peers::<T>(s, y)
        },
{
    reveal(Seq::filter);
    assert(s.push(x).drop_last() =~= s);
}

/// Sorting yields the same values in order, and values of equal rank keep the order in which they
/// stood.
pub proof fn law_sorted<T: Ranked>(s: Seq<T::V>)
    ensures
        in_order::<T>(sorted::<T>(s)),
        sorted::<T>(s).to_multiset() == s.to_multiset(),
        sorted::<T>(s).len() == s.len(),
        forall|y: T::V| #[trigger] peers::<T>(sorted::<T>(s), y) == peers::<T>(s, y),
    decreases s.len(),
{
    broadcast use vstd::seq_lib::group_to_multiset_ensures;

    reveal(Seq::filter);
    if s.len() > 0 {
        let front = s.drop_last();
        law_sorted::<T>(front);
        lemma_placed::<T>(sorted::<T>(front), s.last());
        assert(s =~= front.push(s.last()));
        assert forall|y: T::V| #[trigger] peers::<T>(sorted::<T>(s), y) == peers::<T>(s, y) by {
            lemma_placed_keeps_peers::<T>(sorted::<T>(front), s.last(), y);
            assert(sorted::<T>(front).push(s.last()).drop_last() =~= sorted::<T>(front));
            assert(peers::<T>(sorted::<T>(front), y) == peers::<T>(front, y));
        }
    }
}

proof fn lemma_placed_at<T: Ranked>(s: Seq<T::V>, x: T::V, at: int)
    requires
        0 <= at <= s.len(),
        at > 0 ==> !T::before(x, s[at - 1]),
        forall|i: int| at <= i < s.len() ==> T::before(x, #[trigger] s[i]),
    ensures
        placed::<T>(s, x) == s.insert(at, x),
    decreases s.len(),
{
    if at < s.len() {
        let front = s.drop_last();
        assert(T::before(x, s[s.len() - 1]));
        assert forall|i: int| at <= i < front.len() implies T::before(x, #[trigger] front[i]) by {
            assert(front[i] == s[i]);
        }
        lemma_placed_at::<T>(front, x, at);
        assert(front.insert(at, x).push(s.last()) =~= s.insert(at, x));
    } else {
        assert(s.insert(at, x) =~= s.push(x));
    }
}

/// A value is placed behind all that it does not come before, and before all the others.
pub proof fn lemma_placed_somewhere<T: Ranked>(s: Seq<T::V>, x: T::V) -> (at: int)
    requires
        in_order::<T>(s),
    ensures
        0 <= at <= s.len(),
        at > 0 ==> !T::before(x, s[at - 1]),
        forall|i: int| at <= i < s.len() ==> T::before(x, #[trigger] s[i]),
        placed::<T>(s, x) == s.insert(at, x),
    decreases s.len(),
{
    if s.len() == 0 || !T::before(x, s.last()) {
        assert(s.push(x) =~= s.insert(s.len() as int, x));
        s.len() as int
    } else {
        let front = s.drop_last();
        assert forall|i: int, j: int| 0 <= i < j < front.len() implies !T::before(
            #[trigger] front[j],
            #[trigger] front[i],
        ) by {
            assert(front[i] == s[i] && front[j] == s[j]);
        }
        let at = lemma_placed_somewhere::<T>(front, x);
        assert forall|i: int| at <= i < s.len() implies T::before(x, #[trigger] s[i]) by {
            if i < front.len() {
                assert(front[i] == s[i]);
            }
        }
        assert(front.insert(at, x).push(s.last()) =~= s.insert(at, x));
        at
    }
}

/// Sorts the values; those of equal rank stay as they stood.
pub fn sort<T: Ranked>(values: Vec<T>) -> (r: Vec<T>)
    ensures
        views(r@) == sorted::<T>(views(values@)),
{
    let ghost all = views(values@);
    let mut left = values;
    let mut out: Vec<T> = Vec::new();
    let ghost mut n: int = 0;
    proof {
        assert(all.take(0) =~= Seq::<T::V>::empty());
        assert(views(out@) =~= Seq::<T::V>::empty());
        assert(all.skip(0) =~= all);
    }
    while left.len() > 0
        invariant
            0 <= n <= all.len(),
            left@.len() == all.len() - n,
            views(left@) == all.skip(n),
            views(out@) == sorted::<T>(all.take(n)),
        decreases left@.len(),
    {
        let ghost before = left@;
        let ghost done = out@;
        let x = left.remove(0);
        let mut at: usize = out.len();
        while at > 0 && x.is_before(&out[at - 1])
            invariant
                at <= out@.len(),
                out@ == done,
                forall|i: int| at <= i < done.len() ==> T::before(x@, (#[trigger] done[i])@),
            decreases at,
        {
            at -= 1;
        }
        let ghost xv = x@;
        out.insert(at, x);
        proof {
            assert(all.skip(n)[0] == views(before)[0]);
            assert(all[n] == xv);
            assert forall|i: int| at <= i < done.len() implies T::before(
                xv,
                #[trigger] views(done)[i],
            ) by {
                assert(T::before(xv, done[i]@));
            }
            lemma_placed_at::<T>(views(done), xv, at as int);
            assert(views(out@) =~= views(done).insert(at as int, xv));
            assert(all.take(n + 1).drop_last() =~= all.take(n));
            assert(views(left@) =~= all.skip(n + 1)) by {
                assert forall|i: int| 0 <= i < left@.len() implies views(left@)[i] == all.skip(
                    n + 1,
                )[i] by {
                    assert(left@[i] == before[i + 1]);
                    assert(views(before)[i + 1] == all.skip(n)[i + 1]);
                }
            }
            n = n + 1;
        }
    }
    proof {
        assert(all.take(n) =~= all);
    }
    out
}

impl Ranked for String {
    open spec fn before(a: Seq<char>, b: Seq<char>) -> bool {
        text::text_lt(a, b)
    }

    proof fn before_asymmetric(a: Seq<char>, b: Seq<char>) {
        text::lemma_text_lt_total(a, b);
    }

    proof fn before_negatively_transitive(a: Seq<char>, b: Seq<char>, c: Seq<char>) {
        text::lemma_text_lt_weak(a, b, c);
    }

    fn is_before(&self, other: &Self) -> (r: bool) {
        text::comes_before(self.as_str(), other.as_str())
    }
}

impl<X: View> Ranked for (String, X) {
    open spec fn before(a: (Seq<char>, X::V), b: (Seq<char>, X::V)) -> bool {
        text::text_lt(a.0, b.0)
    }

    proof fn before_asymmetric(a: (Seq<char>, X::V), b: (Seq<char>, X::V)) {
        text::lemma_text_lt_total(a.0, b.0);
    }

    proof fn before_negatively_transitive(
        a: (Seq<char>, X::V),
        b: (Seq<char>, X::V),
        c: (Seq<char>, X::V),
    ) {
        text::lemma_text_lt_weak(a.0, b.0, c.0);
    }

    fn is_before(&self, other: &Self) -> (r: bool) {
        text::comes_before(self.0.as_str(), other.0.as_str())
    }
}

/// Texts are sorted by the order of texts, and pairs by the order of their texts: of two that were
/// sorted, the text of the later never comes before that of the earlier.
pub proof fn law_texts_are_sorted<X: View>(texts: Seq<Seq<char>>, pairs: Seq<(Seq<char>, X::V)>)
    ensures
        ({
            let t = sorted::<String>(texts);
            forall|i: int, j: int|
                0 <= i < j < t.len() ==> !text::text_lt(#[trigger] t[j], #[trigger] t[i])
        }),
        ({
            let p = sorted::<(String, X)>(pairs);
            forall|i: int, j: int|
                0 <= i < j < p.len() ==> !text::text_lt((#[trigger] p[j]).0, (#[trigger] p[i]).0)
        }),
{
    law_sorted::<String>(texts);
    law_sorted::<(String, X)>(pairs);
    let t = sorted::<String>(texts);
    let p = sorted::<(String, X)>(pairs);
    assert forall|i: int, j: int| 0 <= i < j < t.len() implies !text::text_lt(
        #[trigger] t[j],
        #[trigger] t[i],
    ) by {
        assert(!<String as Ranked>::before(t[j], t[i]));
    }
    assert forall|i: int, j: int| 0 <= i < j < p.len() implies !text::text_lt(
        (#[trigger] p[j]).0,
        (#[trigger] p[i]).0,
    ) by {
        assert(!<(String, X) as Ranked>::before(p[j], p[i]));
    }
}

} // verus!
