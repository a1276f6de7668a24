use vstd::prelude::*;

verus! {

/// Values that carry a weight to be ranked by.
pub trait Weighted {
    spec fn weight_of(&self) -> u64;

    fn weight(&self) -> (w: u64)
        ensures
            w == self.weight_of(),
    ;
}

/// `out` is `input` reordered (`out[m] == input[perm[m]]`) by the weight `w`,
/// heaviest first, equal weights keeping their order in `input`.
pub open spec fn stable_desc_by<A>(input: Seq<A>, out: Seq<A>, perm: Seq<int>, w: spec_fn(A) -> u64) -> bool {
    &&& out.len() == input.len()
    &&& perm.len() == input.len()
    &&& forall|m: int| 0 <= m < perm.len() ==> 0 <= #[trigger] perm[m] < input.len() && out[m] == input[perm[m]]
    &&& forall|m1: int, m2: int|
        0 <= m1 < perm.len() && 0 <= m2 < perm.len() && m1 != m2 ==> #[trigger] perm[m1] != #[trigger] perm[m2]
    &&& forall|m1: int, m2: int| 0 <= m1 < m2 < out.len() ==> w(#[trigger] out[m1]) >= w(#[trigger] out[m2])
    &&& forall|m1: int, m2: int|
        0 <= m1 < m2 < out.len() && w(#[trigger] out[m1]) == w(#[trigger] out[m2]) ==> perm[m1] < perm[m2]
}

/// `out` is the stable sort of `input` by descending weight `w`.
pub open spec fn stable_sorted_desc<A>(input: Seq<A>, out: Seq<A>, w: spec_fn(A) -> u64) -> bool {
    exists|perm: Seq<int>| stable_desc_by(input, out, perm, w)
}

/// Sorting commutes with a map that keeps the weights.
pub proof fn lemma_stable_sorted_map<A, B>(
    input: Seq<A>,
    out: Seq<A>,
    w: spec_fn(A) -> u64,
    f: spec_fn(A) -> B,
    w2: spec_fn(B) -> u64,
)
    requires
        stable_sorted_desc(input, out, w),
        forall|x: A| #[trigger] w2(f(x)) == w(x),
    ensures
        stable_sorted_desc(input.map_values(f), out.map_values(f), w2),
{
    let perm = choose|perm: Seq<int>| stable_desc_by(input, out, perm, w);
    let i2 = input.map_values(f);
    let o2 = out.map_values(f);
    assert forall|m1: int, m2: int| 0 <= m1 < m2 < o2.len() implies w2(#[trigger] o2[m1]) >= w2(
        #[trigger] o2[m2],
    ) by {
        assert(w2(f(out[m1])) == w(out[m1]));
        assert(w2(f(out[m2])) == w(out[m2]));
        assert(w(out[m1]) >= w(out[m2]));
    }
    assert forall|m1: int, m2: int|
        0 <= m1 < m2 < o2.len() && w2(#[trigger] o2[m1]) == w2(#[trigger] o2[m2]) implies perm[m1]
        < perm[m2] by {
        assert(w2(f(out[m1])) == w(out[m1]));
        assert(w2(f(out[m2])) == w(out[m2]));
        assert(w(out[m1]) == w(out[m2]));
    }
    assert forall|m: int| 0 <= m < perm.len() implies 0 <= #[trigger] perm[m] < i2.len() && o2[m] == i2[perm[m]] by {
        assert(out[m] == input[perm[m]]);
    }
    assert(stable_desc_by(i2, o2, perm, w2));
}

/// Sorts `input` by descending weight, keeping the order of equal weights.
pub fn sort_by_weight_desc<T: Weighted>(input: Vec<T>) -> (out: Vec<T>)
    ensures
        stable_sorted_desc(input@, out@, |x: T| x.weight_of()),
{
    let ghost wf = |x: T| x.weight_of();
    let ghost orig = input@;
    let mut rest = input;
    let mut out: Vec<T> = Vec::new();
    let ghost mut perm: Seq<int> = Seq::empty();
    let n = rest.len();
    let mut i: usize = 0;
    while i < n
        invariant
            n == orig.len(),
            i <= n,
            rest@ == orig.skip(i as int),
            stable_desc_by(orig.take(i as int), out@, perm, wf),
            wf == (|x: T| x.weight_of()),
        decreases n - i,
    {
        let item = rest.remove(0);
        assert(item == orig[i as int]);
        assert(rest@ =~= orig.skip(i + 1));
        let w = item.weight();
        let mut p: usize = 0;
        while p < out.len() && out[p].weight() >= w
            invariant
                p <= out@.len(),
                forall|m: int| 0 <= m < p ==> (#[trigger] out@[m]).weight_of() >= w,
            decreases out@.len() - p,
        {
            p = p + 1;
        }
        let ghost old_out = out@;
        let ghost old_perm = perm;
        out.insert(p, item);
        proof {
            perm = old_perm.insert(p as int, i as int);
            let inp = orig.take(i + 1);
            assert(orig.take(i as int) =~= inp.drop_last());
            assert(out@ == old_out.insert(p as int, item));
            // sortedness around the inserted element
            assert forall|m1: int, m2: int|
                0 <= m1 < m2 < out@.len() implies (#[trigger] out@[m1]).weight_of() >= (
                #[trigger] out@[m2]).weight_of() by {
                if m2 == p {
                } else if m1 == p {
                    if p < old_out.len() {
                        assert(old_out[p as int].weight_of() < w);
                        if m2 - 1 > p {
                            assert(old_out[p as int].weight_of() >= old_out[m2 - 1].weight_of());
                        }
                    }
                } else {
                    let a = if m1 < p { m1 } else { m1 - 1 };
                    let b = if m2 < p { m2 } else { m2 - 1 };
                    assert(out@[m1] == old_out[a] && out@[m2] == old_out[b]);
                    if a < b {
                        assert(old_out[a].weight_of() >= old_out[b].weight_of());
                    }
                }
            }
            assert forall|m1: int, m2: int|
                0 <= m1 < m2 < out@.len() && (#[trigger] out@[m1]).weight_of() == (
                #[trigger] out@[m2]).weight_of() implies perm[m1] < perm[m2] by {
                if m2 == p {
                    let a = m1;
                    assert(perm[m1] == old_perm[a]);
                    assert(0 <= old_perm[a] < i);
                } else if m1 == p {
                    assert(p < old_out.len());
                    assert(old_out[p as int].weight_of() < w);
                    if m2 - 1 > p {
                        assert(old_out[p as int].weight_of() >= old_out[m2 - 1].weight_of());
                    }
                } else {
                    let a = if m1 < p { m1 } else { m1 - 1 };
                    let b = if m2 < p { m2 } else { m2 - 1 };
                    assert(out@[m1] == old_out[a] && out@[m2] == old_out[b]);
                    assert(perm[m1] == old_perm[a] && perm[m2] == old_perm[b]);
                }
            }
            assert forall|m: int| 0 <= m < perm.len() implies 0 <= #[trigger] perm[m] < inp.len() && out@[m]
                == inp[perm[m]] by {
                if m == p {
                } else {
                    let a = if m < p { m } else { m - 1 };
                    assert(perm[m] == old_perm[a]);
                    assert(out@[m] == old_out[a]);
                }
            }
            assert forall|m1: int, m2: int|
                0 <= m1 < perm.len() && 0 <= m2 < perm.len() && m1 != m2 implies #[trigger] perm[m1]
                != #[trigger] perm[m2] by {
                if m1 != p && m2 != p {
                    let a = if m1 < p { m1 } else { m1 - 1 };
                    let b = if m2 < p { m2 } else { m2 - 1 };
                    assert(perm[m1] == old_perm[a] && perm[m2] == old_perm[b]);
                } else if m1 == p {
                    let b = if m2 < p { m2 } else { m2 - 1 };
                    assert(perm[m2] == old_perm[b]);
                } else {
                    let a = if m1 < p { m1 } else { m1 - 1 };
                    assert(perm[m1] == old_perm[a]);
                }
            }
        }
        i = i + 1;
    }
    assert(orig.take(n as int) =~= orig);
    assert(stable_desc_by(orig, out@, perm, wf));
    out
}

} // verus!
