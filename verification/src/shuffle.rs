//! In-place shuffling of aligned rows: every row is reordered by one and the
//! same randomly drawn permutation, so entries that share a position (a
//! sample and its label, say) stay aligned.

use vstd::prelude::*;

verus! {

/// `p` is a permutation of the positions `0 .. n`.
pub open spec fn is_permutation(p: Seq<int>, n: int) -> bool {
    &&& p.len() == n
    &&& forall|k: int| 0 <= k < n ==> 0 <= #[trigger] p[k] < n
    &&& forall|k1: int, k2: int| 0 <= k1 < k2 < n ==> p[k1] != p[k2]
}

/// `s` with the entries at `x` and `y` exchanged.
pub open spec fn swapped<A>(s: Seq<A>, x: int, y: int) -> Seq<A> {
    s.update(x, s[y]).update(y, s[x])
}

/// Exchanging two entries of a permutation leaves a permutation.
proof fn lemma_swapped_permutation(p: Seq<int>, n: int, x: int, y: int)
    requires
        is_permutation(p, n),
        0 <= x < n,
        0 <= y < n,
    ensures
        is_permutation(swapped(p, x, y), n),
{
    let q = swapped(p, x, y);
    assert forall|k1: int, k2: int| 0 <= k1 < k2 < n implies q[k1] != q[k2] by {
        assert(p[k1] != p[k2]);
        if x != k1 && x != k2 && y != k1 && y != k2 {
        } else {
            assert(q[k1] == p[k1] || q[k1] == p[x] || q[k1] == p[y]);
        }
    }
}

/// Relies on `rand::Rng::gen_range` over a half-open index range: the drawn
/// index lies within the range.  `gen_range` panics on an empty range, which
/// the precondition rules out.
#[verifier::external_body]
fn gen_index(lo: usize, hi: usize) -> (r: usize)
    requires
        lo < hi,
    ensures
        lo <= r < hi,
{
    rand::Rng::gen_range(&mut rand::thread_rng(), lo..hi)
}

/// Shuffle the columns of `rows` in place.  All rows must have one common
/// length; afterwards one and the same permutation, drawn position by
/// position from the random generator, has been applied to every row, so
/// aligned entries stay aligned.
pub fn shuffle<T: Copy>(rows: &mut Vec<Vec<T>>)
    requires
        forall|j: int|
            0 <= j < old(rows)@.len() ==> (#[trigger] old(rows)@[j])@.len() == old(
                rows,
            )@[0]@.len(),
    ensures
        final(rows)@.len() == old(rows)@.len(),
        forall|j: int|
            0 <= j < old(rows)@.len() ==> (#[trigger] final(rows)@[j])@.len() == old(
                rows,
            )@[j]@.len(),
        old(rows)@.len() > 0 ==> exists|p: Seq<int>|
            #[trigger] is_permutation(p, old(rows)@[0]@.len() as int) && forall|j: int, k: int|
                0 <= j < old(rows)@.len() && 0 <= k < old(rows)@[0]@.len()
                    ==> (#[trigger] final(rows)@[j]@[k]) == old(rows)@[j]@[p[k]],
        old(rows)@.len() == 0 ==> final(rows)@ == old(rows)@,
    {
        let m = rows.len();
        if m == 0 {
            return ;
        }
        let n = rows[0].len();
        let ghost mut perm: Seq<int> = Seq::new(n as nat, |k: int| k);
        proof {
            assert(is_permutation(perm, n as int));
        }
        let mut i: usize = 0;
        while i < n
            invariant
                i <= n,
                rows@.len() == m,
                m == old(rows)@.len(),
                m > 0,
                n == old(rows)@[0]@.len(),
                forall|j: int| 0 <= j < m ==> (#[trigger] rows@[j])@.len() == n,
                forall|j: int| 0 <= j < m ==> (#[trigger] old(rows)@[j])@.len() == n,
                is_permutation(perm, n as int),
                forall|j: int, k: int|
                    0 <= j < m && 0 <= k < n ==> (#[trigger] rows@[j]@[k]) == old(
                        rows,
                    )@[j]@[perm[k]],
            decreases n - i,
        {
            let next = gen_index(i, n);
            let ghost snap = rows@;
            let mut j: usize = 0;
            while j < m
                invariant
                    j <= m,
                    rows@.len() == m,
                    i < n,
                    next < n,
                    snap.len() == m,
                    forall|jj: int| 0 <= jj < m ==> (#[trigger] snap[jj])@.len() == n,
                    forall|jj: int| 0 <= jj < m ==> (#[trigger] rows@[jj])@.len() == n,
                    forall|jj: int|
                        0 <= jj < j ==> (#[trigger] rows@[jj])@ == swapped(
                            snap[jj]@,
                            i as int,
                            next as int,
                        ),
                    forall|jj: int| j <= jj < m ==> (#[trigger] rows@[jj]) == snap[jj],
                decreases m - j,
            {
                let ghost before = rows@;
                let mut row = rows.remove(j);
                let a = row[i];
                let b = row[next];
                row[i] = b;
                row[next] = a;
                rows.insert(j, row);
                proof {
                    assert(rows@ =~= before.update(j as int, rows@[j as int]));
                    assert(rows@[j as int]@ =~= swapped(snap[j as int]@, i as int, next as int));
                    assert forall|jj: int| 0 <= jj < j + 1 implies (#[trigger] rows@[jj])@
                        == swapped(snap[jj]@, i as int, next as int) by {
                        if jj < j as int {
                            assert(rows@[jj] == before[jj]);
                        }
                    }
                }
                j = j + 1;
            }
            proof {
                let next_perm = swapped(perm, i as int, next as int);
                lemma_swapped_permutation(perm, n as int, i as int, next as int);
                assert forall|jj: int, k: int| 0 <= jj < m && 0 <= k < n implies (
                #[trigger] rows@[jj]@[k]) == old(rows)@[jj]@[next_perm[k]] by {
                    assert(rows@[jj]@ == swapped(snap[jj]@, i as int, next as int));
                    assert(snap[jj]@[i as int] == old(rows)@[jj]@[perm[i as int]]);
                    assert(snap[jj]@[next as int] == old(rows)@[jj]@[perm[next as int]]);
                    if k != i as int && k != next as int {
                        assert(snap[jj]@[k] == old(rows)@[jj]@[perm[k]]);
                    }
                }
                perm = next_perm;
            }
            i = i + 1;
        }
        proof {
            assert(is_permutation(perm, old(rows)@[0]@.len() as int) && forall|j: int, k: int|
                0 <= j < old(rows)@.len() && 0 <= k < old(rows)@[0]@.len()
                    ==> (#[trigger] rows@[j]@[k]) == old(rows)@[j]@[perm[k]]);
        }
    }

} // verus!
