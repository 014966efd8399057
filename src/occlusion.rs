use vstd::prelude::*;

verus! {

/// `list` holds, in increasing order, exactly the facets `j` other than `i` among `0..n`
/// that `overlap[i]` marks as possibly hiding part of facet `i`.
pub open spec fn lists_occluders(overlap: Seq<Vec<bool>>, i: int, list: Seq<usize>) -> bool {
    &&& forall|a: int, b: int| 0 <= a < b < list.len() ==> (#[trigger] list[a]) < (#[trigger] list[b])
    &&& forall|a: int| 0 <= a < list.len() ==> {
        let j = #[trigger] list[a];
        &&& j < overlap.len()
        &&& j != i
        &&& overlap[i]@[j as int]
    }
    &&& forall|j: int| 0 <= j < overlap.len() && j != i && #[trigger] overlap[i]@[j] ==> list.contains(j as usize)
}

/// For each facet `i`, the other facets that may occlude it: every ordered pair of distinct
/// facets is considered, less those that `overlap` rules out (a screen-space bounding-box
/// test, for instance). `overlap[i][j]` tells whether facet `j` may cover facet `i`.
pub fn occluders(overlap: &Vec<Vec<bool>>) -> (r: Vec<Vec<usize>>)
    requires
        forall|i: int| 0 <= i < overlap@.len() ==> (#[trigger] overlap@[i])@.len() == overlap@.len(),
    ensures
        r@.len() == overlap@.len(),
        forall|i: int| 0 <= i < r@.len() ==> lists_occluders(overlap@, i, (#[trigger] r@[i])@),
{
    let n = overlap.len();
    let mut r: Vec<Vec<usize>> = Vec::new();
    let mut i: usize = 0;
    while i < n
        invariant
            n == overlap@.len(),
            forall|k: int| 0 <= k < overlap@.len() ==> (#[trigger] overlap@[k])@.len() == overlap@.len(),
            i <= n,
            r@.len() == i,
            forall|k: int| 0 <= k < i ==> lists_occluders(overlap@, k, (#[trigger] r@[k])@),
        decreases n - i,
    {
        let mut list: Vec<usize> = Vec::new();
        let mut j: usize = 0;
        while j < n
            invariant
                n == overlap@.len(),
                i < n,
                overlap@[i as int]@.len() == n,
                j <= n,
                forall|a: int, b: int| 0 <= a < b < list@.len() ==> (#[trigger] list@[a]) < (#[trigger] list@[b]),
                forall|a: int| 0 <= a < list@.len() ==> {
                    let jj = #[trigger] list@[a];
                    &&& jj < j
                    &&& jj != i
                    &&& overlap@[i as int]@[jj as int]
                },
                forall|jj: int| 0 <= jj < j && jj != i && #[trigger] overlap@[i as int]@[jj] ==> list@.contains(jj as usize),
            decreases n - j,
        {
            let ghost prev = list@;
            if j != i && overlap[i][j] {
                list.push(j);
                proof {
                    assert(list@[list@.len() - 1] == j);
                    assert forall|jj: int| 0 <= jj < j && jj != i && #[trigger] overlap@[i as int]@[jj]
                        implies list@.contains(jj as usize) by {
                        let a = choose|a: int| 0 <= a < prev.len() && prev[a] == jj as usize;
                        assert(list@[a] == prev[a]);
                    }
                }
            }
            j = j + 1;
        }
        r.push(list);
        proof {
            assert(r@[i as int]@ == list@);
        }
        i = i + 1;
    }
    r
}

} // verus!
