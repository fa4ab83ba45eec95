//! Finiteness of the sets that bound the searches.

use vstd::prelude::*;
use vstd::set_lib::*;

verus! {

/// The pairs of an element of `sa` with an element of `sb`.
pub open spec fn pairs<A, B>(sa: Set<A>, sb: Set<B>) -> Set<(A, B)> {
    Set::new(|p: (A, B)| sa.contains(p.0) && sb.contains(p.1))
}

/// The sequences of length `n` over an alphabet.
pub open spec fn seqs_over<T>(alphabet: Set<T>, n: nat) -> Set<Seq<T>> {
    Set::new(|s: Seq<T>| s.len() == n && forall|i: int| 0 <= i < n ==> alphabet.contains(#[trigger] s[i]))
}

/// Finitely many elements make finitely many pairs.
pub proof fn lemma_pairs_finite<A, B>(sa: Set<A>, sb: Set<B>)
    requires
        sa.finite(),
        sb.finite(),
    ensures
        pairs(sa, sb).finite(),
{
    let fwd = |a: A| Set::new(|p: (A, B)| p.0 == a && sb.contains(p.1));
    let rev = |p: (A, B)| p.0;
    assert forall|a: A| sa.contains(a) implies #[trigger] fwd(a).finite() by {
        let g = |b: B| (a, b);
        sb.lemma_map_finite(g);
        assert forall|p: (A, B)| fwd(a).contains(p) implies sb.map(g).contains(p) by {
            assert(sb.contains(p.1) && p == g(p.1));
        }
        assert(fwd(a).subset_of(sb.map(g)));
        lemma_set_subset_finite(sb.map(g), fwd(a));
    }
    sa.lemma_map_flatten_by_finite(fwd, rev);
    assert(pairs(sa, sb) =~= sa.map_flatten_by(fwd, rev));
}

/// A finite alphabet makes finitely many sequences of a given length.
pub proof fn lemma_seqs_over_finite<T>(alphabet: Set<T>, n: nat)
    requires
        alphabet.finite(),
    ensures
        seqs_over(alphabet, n).finite(),
    decreases n,
{
    if n == 0 {
        let only = Set::<Seq<T>>::empty().insert(Seq::<T>::empty());
        assert forall|s: Seq<T>| seqs_over(alphabet, n).contains(s) implies only.contains(s) by {
            assert(s =~= Seq::<T>::empty());
        }
        assert(seqs_over(alphabet, n).subset_of(only));
        lemma_set_subset_finite(only, seqs_over(alphabet, n));
    } else {
        let shorter = seqs_over(alphabet, (n - 1) as nat);
        lemma_seqs_over_finite(alphabet, (n - 1) as nat);
        lemma_pairs_finite(shorter, alphabet);
        let extend = |p: (Seq<T>, T)| p.0.push(p.1);
        let image = pairs(shorter, alphabet).map(extend);
        pairs(shorter, alphabet).lemma_map_finite(extend);
        assert forall|s: Seq<T>| seqs_over(alphabet, n).contains(s) implies image.contains(s) by {
            let p = (s.drop_last(), s.last());
            assert(shorter.contains(p.0)) by {
                assert forall|i: int| 0 <= i < n - 1 implies alphabet.contains(#[trigger] p.0[i]) by {
                    assert(p.0[i] == s[i]);
                }
            }
            assert(alphabet.contains(s[n - 1]));
            assert(pairs(shorter, alphabet).contains(p));
            assert(extend(p) =~= s);
        }
        assert(seqs_over(alphabet, n).subset_of(image));
        lemma_set_subset_finite(image, seqs_over(alphabet, n));
    }
}

/// A finite set loses exactly one element of its complement when that
/// element is added to the other set.
pub proof fn lemma_fewer_left<T>(all: Set<T>, seen: Set<T>, fresh: T)
    requires
        all.finite(),
        all.contains(fresh),
        !seen.contains(fresh),
    ensures
        all.difference(seen.insert(fresh)).len() + 1 == all.difference(seen).len(),
{
    let left = all.difference(seen);
    assert(left.finite()) by {
        assert(left.subset_of(all));
        lemma_set_subset_finite(all, left);
    }
    assert(left.contains(fresh));
    assert(all.difference(seen.insert(fresh)) =~= left.remove(fresh));
}

} // verus!
