//! Stable ordering by integer keys.
use vstd::prelude::*;

verus! {

/// Lexicographic order of two triples.
pub open spec fn triple_le(a: (u64, u32, usize), b: (u64, u32, usize)) -> bool {
    a.0 < b.0 || (a.0 == b.0 && (a.1 < b.1 || (a.1 == b.1 && a.2 <= b.2)))
}

/// Whether `p` lists the indices of `keys` in ascending order of the keys,
/// equal keys in the order in which they stand.
pub open spec fn is_stable_order(keys: Seq<(u64, u32)>, p: Seq<int>) -> bool {
    &&& p.len() == keys.len()
    &&& forall|i: int| 0 <= i < p.len() ==> 0 <= #[trigger] p[i] < keys.len()
    &&& forall|i: int, j: int|
        0 <= i < j < p.len() ==> {
            let a = keys[#[trigger] p[i]];
            let b = keys[#[trigger] p[j]];
            a.0 < b.0 || (a.0 == b.0 && (a.1 < b.1 || (a.1 == b.1 && p[i] < p[j])))
        }
}

/// `slice::sort` of std on triples of integers: the same items, in ascending
/// lexicographic order.
#[verifier::external_body]
fn sort_triples(v: &mut Vec<(u64, u32, usize)>)
    ensures
        final(v)@.to_multiset() == old(v)@.to_multiset(),
        forall|i: int, j: int|
            0 <= i <= j < final(v)@.len() ==> triple_le(
                #[trigger] final(v)@[i],
                #[trigger] final(v)@[j],
            ),
{
    v.sort();
}

/// The indices of `keys` in stable order.
pub fn stable_order(keys: &Vec<(u64, u32)>) -> (r: Vec<usize>)
    ensures
        is_stable_order(keys@, r@.map_values(|i: usize| i as int)),
{
    let mut triples: Vec<(u64, u32, usize)> = Vec::new();
    let mut i: usize = 0;
    while i < keys.len()
        invariant
            i <= keys@.len(),
            triples@ =~= Seq::new(i as nat, |k: int| (keys@[k].0, keys@[k].1, k as usize)),
        decreases keys@.len() - i,
    {
        triples.push((keys[i].0, keys[i].1, i));
        i = i + 1;
    }
    let ghost unsorted = triples@;
    sort_triples(&mut triples);
    let ghost sorted = triples@;
    let mut out: Vec<usize> = Vec::new();
    let mut k: usize = 0;
    while k < triples.len()
        invariant
            k <= triples@.len(),
            out@ =~= Seq::new(k as nat, |j: int| triples@[j].2),
        decreases triples@.len() - k,
    {
        out.push(triples[k].2);
        k = k + 1;
    }
    proof {
        let p = Seq::new(sorted.len(), |j: int| sorted[j].2 as int);
        assert(out@.map_values(|i: usize| i as int) =~= p);
        lemma_sorted_indices(keys@, unsorted, sorted, p);
    }
    out
}

proof fn lemma_sorted_indices(
    keys: Seq<(u64, u32)>,
    unsorted: Seq<(u64, u32, usize)>,
    sorted: Seq<(u64, u32, usize)>,
    p: Seq<int>,
)
    requires
        keys.len() <= usize::MAX,
        unsorted == Seq::new(keys.len(), |k: int| (keys[k].0, keys[k].1, k as usize)),
        sorted.to_multiset() == unsorted.to_multiset(),
        forall|i: int, j: int|
            0 <= i <= j < sorted.len() ==> triple_le(#[trigger] sorted[i], #[trigger] sorted[j]),
        p == Seq::new(sorted.len(), |j: int| sorted[j].2 as int),
    ensures
        is_stable_order(keys, p),
{
    broadcast use vstd::seq_lib::group_to_multiset_ensures;

    assert(unsorted.no_duplicates()) by {
        assert forall|i: int, j: int|
            0 <= i < unsorted.len() && 0 <= j < unsorted.len() && i != j implies unsorted[i]
            != unsorted[j] by {
            assert(unsorted[i].2 == i as usize && unsorted[j].2 == j as usize);
        }
    }
    unsorted.lemma_multiset_has_no_duplicates();
    assert(sorted.len() == unsorted.len()) by {
        assert(sorted.to_multiset().len() == unsorted.to_multiset().len());
        vstd::seq_lib::to_multiset_len(sorted);
        vstd::seq_lib::to_multiset_len(unsorted);
    }
    sorted.lemma_multiset_has_no_duplicates_conv();
    assert forall|i: int| 0 <= i < sorted.len() implies 0 <= #[trigger] p[i] < keys.len()
        && sorted[i] == unsorted[p[i]] by {
        assert(sorted.to_multiset().count(sorted[i]) > 0);
        assert(unsorted.contains(sorted[i]));
        let k = choose|k: int| 0 <= k < unsorted.len() && unsorted[k] == sorted[i];
        assert(unsorted[k].2 == k as usize);
    }
    assert forall|i: int, j: int| 0 <= i < j < p.len() implies {
        let a = keys[#[trigger] p[i]];
        let b = keys[#[trigger] p[j]];
        a.0 < b.0 || (a.0 == b.0 && (a.1 < b.1 || (a.1 == b.1 && p[i] < p[j])))
    } by {
        assert(triple_le(sorted[i], sorted[j]));
        assert(sorted[i] != sorted[j]);
        assert(sorted[i] == unsorted[p[i]]);
        assert(sorted[j] == unsorted[p[j]]);
    }
}

} // verus!
