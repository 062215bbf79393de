use vstd::prelude::*;

verus! {

/// Replacing one item of a sequence replaces it in its multiset.
proof fn lemma_update_multiset<T>(s: Seq<T>, i: int, x: T)
    requires
        0 <= i < s.len(),
    ensures
        s.update(i, x).to_multiset() == s.to_multiset().remove(s[i]).insert(x),
{
    broadcast use vstd::seq_lib::group_to_multiset_ensures;
    assert(s.update(i, x) =~= s.remove(i).insert(i, x));
    vstd::seq_lib::to_multiset_insert(s.remove(i), i, x);
}

/// Swapping two items of a sequence keeps its multiset.
proof fn lemma_swap_multiset<T>(s: Seq<T>, i: int, j: int)
    requires
        0 <= i < s.len(),
        0 <= j < s.len(),
    ensures
        s.update(i, s[j]).update(j, s[i]).to_multiset() == s.to_multiset(),
{
    broadcast use vstd::seq_lib::group_to_multiset_ensures;
    broadcast use vstd::multiset::group_multiset_axioms;
    if i == j {
        assert(s.update(i, s[j]).update(j, s[i]) =~= s);
    } else {
        let s1 = s.update(i, s[j]);
        lemma_update_multiset(s, i, s[j]);
        lemma_update_multiset(s1, j, s[i]);
        assert(s.to_multiset().count(s[i]) > 0);
        assert(s.to_multiset().remove(s[i]).insert(s[j]).remove(s[j]).insert(s[i]) =~= s.to_multiset());
    }
}

/// The random source hands out an index below any positive bound.
pub open spec fn random_below<R: Fn(usize) -> usize>(rand: R) -> bool {
    &&& forall|n: usize| call_requires(rand, (n,))
    &&& forall|n: usize, k: usize| n > 0 && #[trigger] call_ensures(rand, (n,), k) ==> k < n
}

/// The sequence `s` after the Fisher-Yates steps that use `draws`: step `k`
/// (from zero) swaps the item at `s.len() - 1 - k` with the item at the index
/// drawn, `draws[k]`.
pub open spec fn after_draws<T>(s: Seq<T>, draws: Seq<usize>) -> Seq<T>
    decreases draws.len(),
{
    if draws.len() == 0 {
        s
    } else {
        let prev = after_draws(s, draws.drop_last());
        let last = s.len() - draws.len();
        let j = draws.last() as int;
        prev.update(last, prev[j]).update(j, prev[last])
    }
}

/// The items of `v` in a random order (Fisher-Yates, drawing from `rand`).
pub fn shuffle_vec<T: Copy, R: Fn(usize) -> usize>(v: Vec<T>, rand: &R) -> (r: Vec<T>)
    requires
        random_below(*rand),
    ensures
        r@.to_multiset() == v@.to_multiset(),
        r@.len() == v@.len(),
        forall|x: T| r@.contains(x) <==> v@.contains(x),
        exists|draws: Seq<usize>| {
            &&& draws.len() == (if v@.len() > 1 { v@.len() - 1 } else { 0 })
            &&& forall|k: int| 0 <= k < draws.len()
                ==> #[trigger] call_ensures(*rand, ((v@.len() - k) as usize,), draws[k])
            &&& r@ == after_draws(v@, draws)
        },
{
    broadcast use vstd::seq_lib::group_to_multiset_ensures;
    let mut r = v;
    let mut i: usize = r.len();
    let ghost mut draws: Seq<usize> = Seq::empty();
    while i > 1
        invariant
            random_below(*rand),
            i <= r@.len(),
            r@.len() == v@.len(),
            r@.to_multiset() == v@.to_multiset(),
            draws.len() == v@.len() - i,
            i == 0 ==> v@.len() == 0,
            forall|k: int| 0 <= k < draws.len()
                ==> #[trigger] call_ensures(*rand, ((v@.len() - k) as usize,), draws[k]),
            r@ == after_draws(v@, draws),
        decreases i,
    {
        let j = rand(i);
        let last = i - 1;
        let a = r[last];
        let b = r[j];
        proof { lemma_swap_multiset(r@, last as int, j as int); }
        let ghost prev = r@;
        r.set(last, b);
        r.set(j, a);
        proof {
            let old_draws = draws;
            draws = draws.push(j);
            assert(draws.drop_last() =~= old_draws);
            assert(draws[draws.len() - 1] == j);
            assert(r@ == prev.update(last as int, prev[j as int]).update(j as int, prev[last as int]));
            assert(r@ == after_draws(v@, draws));
            assert forall|k: int| 0 <= k < draws.len()
                implies #[trigger] call_ensures(*rand, ((v@.len() - k) as usize,), draws[k]) by {
                if k < old_draws.len() {
                    assert(draws[k] == old_draws[k]);
                } else {
                    assert(((v@.len() - k) as usize) == i);
                }
            }
        }
        i = last;
    }
    proof {
        assert forall|x: T| r@.contains(x) <==> v@.contains(x) by {
            assert(r@.to_multiset().count(x) == v@.to_multiset().count(x));
        }
        assert(draws.len() == (if v@.len() > 1 { v@.len() - 1 } else { 0 }));
    }
    r
}

} // verus!
