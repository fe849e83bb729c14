//! Sorting by an order a type states for itself.

use vstd::prelude::*;

verus! {

/// A type with a total preorder: what comes first when a list of it is put
/// in order.
pub trait Ranked: Sized {
    /// Whether `self` may stand before `other`.
    spec fn ranks_before(&self, other: &Self) -> bool;

    /// Any two values may stand in one order or the other.
    proof fn ranks_total(a: &Self, b: &Self)
        ensures
            a.ranks_before(b) || b.ranks_before(a),
    ;

    /// The order carries over.
    proof fn ranks_transitive(a: &Self, b: &Self, c: &Self)
        requires
            a.ranks_before(b),
            b.ranks_before(c),
        ensures
            a.ranks_before(c),
    ;

    /// Whether `self` may stand before `other`.
    fn before(&self, other: &Self) -> (r: bool)
        ensures
            r == self.ranks_before(other),
    ;
}

/// Whether every value of `s` may stand before every later one.
pub open spec fn in_order<T: Ranked>(s: Seq<T>) -> bool {
    forall|i: int, j: int| 0 <= i < j < s.len() ==> (#[trigger] s[i]).ranks_before(#[trigger] &s[j])
}

/// `out` is `input` in order: the same values as often, each before those
/// that may follow it.
pub open spec fn is_sorting_of<T: Ranked>(out: Seq<T>, input: Seq<T>) -> bool {
    &&& in_order(out)
    &&& out.to_multiset() == input.to_multiset()
}

/// A sorting has the length of what it sorts.
pub proof fn lemma_sorting_len<T: Ranked>(out: Seq<T>, input: Seq<T>)
    requires
        is_sorting_of(out, input),
    ensures
        out.len() == input.len(),
{
    broadcast use vstd::seq_lib::group_to_multiset_ensures;
    assert(out.to_multiset().len() == out.len());
    assert(input.to_multiset().len() == input.len());
}

/// A sorting holds exactly the values of what it sorts.
pub proof fn lemma_sorting_contains<T: Ranked>(out: Seq<T>, input: Seq<T>, x: T)
    requires
        is_sorting_of(out, input),
    ensures
        out.contains(x) == input.contains(x),
{
    broadcast use vstd::seq_lib::group_to_multiset_ensures;
    assert(out.to_multiset().contains(x) == input.to_multiset().contains(x));
}

/// A sorting of distinct values holds distinct values.
pub proof fn lemma_sorting_distinct<T: Ranked>(out: Seq<T>, input: Seq<T>)
    requires
        is_sorting_of(out, input),
        input.no_duplicates(),
    ensures
        out.no_duplicates(),
{
    input.lemma_multiset_has_no_duplicates();
    out.lemma_multiset_has_no_duplicates_conv();
}

/// Where only equal values of a list may stand either way round, it has
/// one sorting.
pub proof fn lemma_sorting_unique<T: Ranked>(a: Seq<T>, b: Seq<T>, input: Seq<T>)
    requires
        is_sorting_of(a, input),
        is_sorting_of(b, input),
        forall|x: T, y: T|
            #![trigger x.ranks_before(&y), y.ranks_before(&x)]
            input.contains(x) && input.contains(y) && x.ranks_before(&y) && y.ranks_before(&x)
                ==> x == y,
    ensures
        a == b,
    decreases a.len(),
{
    broadcast use vstd::seq_lib::group_to_multiset_ensures;
    lemma_sorting_len(a, input);
    lemma_sorting_len(b, input);
    if a.len() == 0 {
        assert(a =~= b);
    } else {
        let x = a.last();
        let y = b.last();
        lemma_sorting_contains(a, input, x);
        lemma_sorting_contains(b, input, x);
        lemma_sorting_contains(a, input, y);
        lemma_sorting_contains(b, input, y);
        assert(a[a.len() - 1] == x);
        assert(b[b.len() - 1] == y);
        let ix = choose|i: int| 0 <= i < b.len() && b[i] == x;
        let iy = choose|i: int| 0 <= i < a.len() && a[i] == y;
        assert(x == y) by {
            if x != y {
                assert(ix < b.len() - 1);
                assert(iy < a.len() - 1);
                assert(b[ix].ranks_before(&b[b.len() - 1]));
                assert(a[iy].ranks_before(&a[a.len() - 1]));
            }
        }
        let n = (a.len() - 1) as int;
        assert(a =~= a.drop_last().push(x));
        assert(b =~= b.drop_last().push(x));
        assert(a.drop_last().to_multiset() =~= b.drop_last().to_multiset()) by {
            assert(a.drop_last().push(x).to_multiset() =~= a.drop_last().to_multiset().insert(x));
            assert(b.drop_last().push(x).to_multiset() =~= b.drop_last().to_multiset().insert(x));
            assert(a.drop_last().to_multiset() =~= a.to_multiset().remove(x));
            assert(b.drop_last().to_multiset() =~= b.to_multiset().remove(x));
        }
        assert(in_order(a.drop_last()));
        assert(in_order(b.drop_last()));
        assert forall|z: T| a.drop_last().contains(z) implies input.contains(z) by {
            let i = choose|i: int| 0 <= i < a.drop_last().len() && a.drop_last()[i] == z;
            assert(a[i] == z);
            lemma_sorting_contains(a, input, z);
        }
        lemma_sorting_unique(a.drop_last(), b.drop_last(), a.drop_last());
    }
}

proof fn lemma_multiset_of_sum<T>(a: Seq<T>, b: Seq<T>)
    ensures
        (a + b).to_multiset() == a.to_multiset().add(b.to_multiset()),
{
    vstd::seq_lib::lemma_multiset_commutative(a, b);
}

proof fn lemma_multiset_of_push<T>(a: Seq<T>, x: T)
    ensures
        a.push(x).to_multiset() == a.to_multiset().insert(x),
{
    broadcast use vstd::seq_lib::group_to_multiset_ensures;
}

/// The values of `v` the other way round.
pub open spec fn backwards<T>(s: Seq<T>) -> Seq<T> {
    Seq::new(s.len(), |i: int| s[s.len() - 1 - i])
}

fn reversed<T>(v: Vec<T>) -> (r: Vec<T>)
    ensures
        r@ == backwards(v@),
        r@.to_multiset() == v@.to_multiset(),
{
    let mut rest = v;
    let mut out: Vec<T> = Vec::new();
    proof {
        lemma_multiset_of_sum(rest@, out@);
        assert(rest@ + out@ =~= v@);
        broadcast use vstd::seq_lib::group_to_multiset_ensures;
    }
    while rest.len() > 0
        invariant
            rest@.len() + out@.len() == v@.len(),
            rest@ == v@.take(rest@.len() as int),
            forall|i: int| 0 <= i < out@.len() ==> out@[i] == v@[v@.len() - 1 - i],
            rest@.to_multiset().add(out@.to_multiset()) == v@.to_multiset(),
        decreases rest.len(),
    {
        let ghost before = rest@;
        let ghost gathered = out@;
        let last = rest.pop();
        match last {
            Some(x) => {
                out.push(x);
                proof {
                    assert(before =~= rest@.push(x));
                    lemma_multiset_of_push(rest@, x);
                    lemma_multiset_of_push(gathered, x);
                    assert(rest@.to_multiset().add(out@.to_multiset())
                        =~= before.to_multiset().add(gathered.to_multiset()));
                }
            },
            None => {
                proof {
                    assert(false);
                }
            },
        }
    }
    proof {
        assert(out@ =~= backwards(v@));
        broadcast use vstd::seq_lib::group_to_multiset_ensures;
        assert(rest@ =~= Seq::empty());
        assert(rest@.to_multiset().add(out@.to_multiset()) =~= out@.to_multiset());
    }
    out
}

/// Whether nothing of `low` must stand after anything of `high`.
spec fn all_before<T: Ranked>(low: Seq<T>, high: Seq<T>) -> bool {
    forall|i: int, j: int|
        0 <= i < low.len() && 0 <= j < high.len() ==> (#[trigger] low[i]).ranks_before(
            #[trigger] &high[j],
        )
}

fn merge<T: Ranked>(a: Vec<T>, b: Vec<T>) -> (r: Vec<T>)
    requires
        in_order(a@),
        in_order(b@),
    ensures
        in_order(r@),
        r@.to_multiset() == a@.to_multiset().add(b@.to_multiset()),
{
    let mut left = a;
    let mut right = b;
    let mut out: Vec<T> = Vec::new();
    proof {
        broadcast use vstd::seq_lib::group_to_multiset_ensures;
        assert(out@ =~= Seq::empty());
        assert(left@.to_multiset().add(right@.to_multiset()).add(out@.to_multiset())
            =~= a@.to_multiset().add(b@.to_multiset()));
        assert(backwards(out@) =~= Seq::empty());
    }
    while left.len() > 0 || right.len() > 0
        invariant
            in_order(left@),
            in_order(right@),
            in_order(backwards(out@)),
            all_before(left@, backwards(out@)),
            all_before(right@, backwards(out@)),
            left@.to_multiset().add(right@.to_multiset()).add(out@.to_multiset())
                == a@.to_multiset().add(b@.to_multiset()),
        decreases left.len() + right.len(),
    {
        let take_right: bool = if left.len() == 0 {
            true
        } else if right.len() == 0 {
            false
        } else {
            left[left.len() - 1].before(&right[right.len() - 1])
        };
        let ghost l0 = left@;
        let ghost r0 = right@;
        let ghost o0 = out@;
        proof {
            if left@.len() > 0 && right@.len() > 0 {
                T::ranks_total(&left@.last(), &right@.last());
            }
        }
        if take_right {
            let last = right.pop();
            match last {
                Some(x) => {
                    proof {
                        assert(r0 =~= right@.push(x));
                        lemma_take_last(l0, r0, o0, x);
                        lemma_multiset_of_push(right@, x);
                        lemma_multiset_of_push(o0, x);
                    }
                    out.push(x);
                    proof {
                        assert(left@.to_multiset().add(right@.to_multiset()).add(out@.to_multiset())
                            =~= l0.to_multiset().add(r0.to_multiset()).add(o0.to_multiset()));
                    }
                },
                None => {},
            }
        } else {
            let last = left.pop();
            match last {
                Some(x) => {
                    proof {
                        assert(l0 =~= left@.push(x));
                        lemma_take_last(r0, l0, o0, x);
                        lemma_multiset_of_push(left@, x);
                        lemma_multiset_of_push(o0, x);
                    }
                    out.push(x);
                    proof {
                        assert(left@.to_multiset().add(right@.to_multiset()).add(out@.to_multiset())
                            =~= l0.to_multiset().add(r0.to_multiset()).add(o0.to_multiset()));
                    }
                },
                None => {},
            }
        }
    }
    proof {
        broadcast use vstd::seq_lib::group_to_multiset_ensures;
        assert(left@ =~= Seq::empty());
        assert(right@ =~= Seq::empty());
        assert(left@.to_multiset().add(right@.to_multiset()).add(out@.to_multiset())
            =~= out@.to_multiset());
    }
    reversed(out)
}

/// Taking the last of `from`, where nothing of `other` must stand after it,
/// keeps both in order and before what was taken.
proof fn lemma_take_last<T: Ranked>(other: Seq<T>, from: Seq<T>, out: Seq<T>, x: T)
    requires
        from.len() > 0,
        x == from.last(),
        in_order(other),
        in_order(from),
        in_order(backwards(out)),
        all_before(other, backwards(out)),
        all_before(from, backwards(out)),
        other.len() > 0 ==> other.last().ranks_before(&x),
    ensures
        in_order(from.drop_last()),
        in_order(backwards(out.push(x))),
        all_before(other, backwards(out.push(x))),
        all_before(from.drop_last(), backwards(out.push(x))),
{
    let next = backwards(out.push(x));
    assert(next =~= seq![x] + backwards(out));
    assert forall|i: int, j: int| 0 <= i < j < next.len() implies (#[trigger] next[i]).ranks_before(
        #[trigger] &next[j],
    ) by {
        if i == 0 {
            assert(next[j] == backwards(out)[j - 1]);
            assert(from[from.len() - 1].ranks_before(&backwards(out)[j - 1]));
        } else {
            assert(next[i] == backwards(out)[i - 1]);
            assert(next[j] == backwards(out)[j - 1]);
        }
    }
    assert forall|i: int, j: int| 0 <= i < other.len() && 0 <= j < next.len() implies (
    #[trigger] other[i]).ranks_before(#[trigger] &next[j]) by {
        if j == 0 {
            if i < other.len() - 1 {
                assert(other[i].ranks_before(&other[other.len() - 1]));
                T::ranks_transitive(&other[i], &other.last(), &x);
            }
        } else {
            assert(next[j] == backwards(out)[j - 1]);
        }
    }
    let rest = from.drop_last();
    assert forall|i: int, j: int| 0 <= i < rest.len() && 0 <= j < next.len() implies (
    #[trigger] rest[i]).ranks_before(#[trigger] &next[j]) by {
        assert(rest[i] == from[i]);
        if j == 0 {
            assert(from[i].ranks_before(&from[from.len() - 1]));
        } else {
            assert(next[j] == backwards(out)[j - 1]);
        }
    }
}

/// The values of `v` in order.
pub fn sorted<T: Ranked>(v: Vec<T>) -> (r: Vec<T>)
    ensures
        is_sorting_of(r@, v@),
    decreases v@.len(),
{
    if v.len() <= 1 {
        return v;
    }
    let half: usize = v.len() / 2;
    let mut low = v;
    let high = low.split_off(half);
    proof {
        lemma_multiset_of_sum(low@, high@);
        assert(low@ + high@ =~= v@);
    }
    let a = sorted(low);
    let b = sorted(high);
    merge(a, b)
}

} // verus!
