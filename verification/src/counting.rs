//! Facts about how often a value occurs in a sequence, seen as a multiset.
use vstd::multiset::Multiset;
use vstd::prelude::*;

verus! {

/// The empty sequence holds nothing.
pub proof fn lemma_empty_holds_nothing<A>()
    ensures
        Seq::<A>::empty().to_multiset() == Multiset::<A>::empty(),
{
    broadcast use vstd::seq_lib::group_to_multiset_ensures;
    broadcast use vstd::multiset::lemma_multiset_empty_len;

    let m = Seq::<A>::empty().to_multiset();
    assert(m.len() == 0);
    assert(m =~= Multiset::<A>::empty());
}

/// Appending a value makes it occur once more and leaves the others alone.
pub proof fn lemma_push_counts<A>(s: Seq<A>, a: A)
    ensures
        s.push(a).to_multiset() == s.to_multiset().insert(a),
        forall|x: A|
            #![trigger s.push(a).to_multiset().count(x)]
            s.push(a).to_multiset().count(x) == s.to_multiset().count(x) + if x == a {
                1nat
            } else {
                0nat
            },
{
    broadcast use vstd::multiset::group_multiset_axioms;

    vstd::seq_lib::to_multiset_build(s, a);
}

/// Choosing by `keep` from two multisets joined is joining what is chosen from each.
pub proof fn lemma_filter_add<A>(a: Multiset<A>, b: Multiset<A>, keep: spec_fn(A) -> bool)
    ensures
        a.add(b).filter(keep) == a.filter(keep).add(b.filter(keep)),
{
    broadcast use vstd::multiset::group_multiset_axioms;

    assert(a.add(b).filter(keep) =~= a.filter(keep).add(b.filter(keep)));
}

/// Choosing by `keep` after one more value came in.
pub proof fn lemma_filter_insert<A>(m: Multiset<A>, a: A, keep: spec_fn(A) -> bool)
    ensures
        m.insert(a).filter(keep) == if keep(a) {
            m.filter(keep).insert(a)
        } else {
            m.filter(keep)
        },
{
    broadcast use vstd::multiset::group_multiset_axioms;

    if keep(a) {
        assert(m.insert(a).filter(keep) =~= m.filter(keep).insert(a));
    } else {
        assert(m.insert(a).filter(keep) =~= m.filter(keep));
    }
}

/// Nothing is chosen from the empty multiset.
pub proof fn lemma_filter_empty<A>(keep: spec_fn(A) -> bool)
    ensures
        Multiset::<A>::empty().filter(keep) == Multiset::<A>::empty(),
{
    broadcast use vstd::multiset::group_multiset_axioms;

    assert(Multiset::<A>::empty().filter(keep) =~= Multiset::<A>::empty());
}

/// Where `f` sends no other element of `s` to the image of `x`, that image
/// occurs among the images as often as `x` occurs in `s`.
pub proof fn lemma_count_under_map<A, B>(s: Seq<A>, f: spec_fn(A) -> B, x: A)
    requires
        forall|i: int| 0 <= i < s.len() && f(#[trigger] s[i]) == f(x) ==> s[i] == x,
    ensures
        s.map_values(f).to_multiset().count(f(x)) == s.to_multiset().count(x),
    decreases s.len(),
{
    if s.len() == 0 {
        lemma_empty_holds_nothing::<A>();
        lemma_empty_holds_nothing::<B>();
        assert(s =~= Seq::<A>::empty());
        assert(s.map_values(f) =~= Seq::<B>::empty());
    } else {
        let rest = s.drop_last();
        let a = s.last();
        assert forall|i: int| 0 <= i < rest.len() && f(#[trigger] rest[i]) == f(x) implies rest[i]
            == x by {
            assert(rest[i] == s[i]);
        }
        lemma_count_under_map(rest, f, x);
        assert(s =~= rest.push(a));
        assert(s.map_values(f) =~= rest.map_values(f).push(f(a)));
        lemma_push_counts(rest, a);
        lemma_push_counts(rest.map_values(f), f(a));
        assert(s[s.len() - 1] == a);
    }
}

/// A value that is the image of no element does not occur among the images.
pub proof fn lemma_count_outside_image<A, B>(s: Seq<A>, f: spec_fn(A) -> B, y: B)
    requires
        forall|i: int| 0 <= i < s.len() ==> f(#[trigger] s[i]) != y,
    ensures
        s.map_values(f).to_multiset().count(y) == 0,
{
    broadcast use vstd::seq_lib::group_to_multiset_ensures;

    let images = s.map_values(f);
    if images.to_multiset().count(y) > 0 {
        assert(images.contains(y));
        let i = choose|i: int| 0 <= i < images.len() && images[i] == y;
        assert(f(s[i]) == y);
    }
}

} // verus!
