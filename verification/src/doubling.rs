//! Repeated application of a map of `0..n` into itself, by doubling: a table
//! of the map applied 1, 2, 4, ... times gives the map applied `k` times in a
//! number of steps proportional to the number of bits of `k`.

use vstd::prelude::*;
use vstd::arithmetic::power2::{pow2, lemma_pow2_unfold, lemma_pow2_pos};

verus! {

/// The elements that a map is defined on are numbered by `u32`.
pub type Index = u32;

/// Whether `nxt` maps the indices below its length to such indices.
pub open spec fn closed_map(nxt: Seq<Index>) -> bool {
    forall|i: int| 0 <= i < nxt.len() ==> #[trigger] nxt[i] < nxt.len()
}

/// The element reached from `src` by applying `nxt` `steps` times.
pub open spec fn iterate(nxt: Seq<Index>, steps: nat, src: int) -> int
    decreases steps,
{
    if steps == 0 {
        src
    } else {
        iterate(nxt, (steps - 1) as nat, nxt[src] as int)
    }
}

/// Applying a closed map any number of times stays inside its domain.
pub proof fn lemma_iterate_closed(nxt: Seq<Index>, steps: nat, src: int)
    requires
        closed_map(nxt),
        0 <= src < nxt.len(),
    ensures
        0 <= iterate(nxt, steps, src) < nxt.len(),
    decreases steps,
{
    if steps > 0 {
        lemma_iterate_closed(nxt, (steps - 1) as nat, nxt[src] as int);
    }
}

/// Applying the map `a` times and then `b` times is applying it `a + b`
/// times.
pub proof fn lemma_iterate_add(nxt: Seq<Index>, a: nat, b: nat, src: int)
    requires
        closed_map(nxt),
        0 <= src < nxt.len(),
    ensures
        iterate(nxt, b, iterate(nxt, a, src)) == iterate(nxt, a + b, src),
    decreases a,
{
    if a > 0 {
        lemma_iterate_add(nxt, (a - 1) as nat, b, nxt[src] as int);
    }
}

proof fn lemma_row_bound(d: int, depth: int, size: int)
    requires
        0 <= d <= depth,
        0 <= size,
    ensures
        0 <= d * size,
        (d + 1) * size <= (depth + 1) * size,
        (d + 1) * size == d * size + size,
{
    assert(0 <= d * size) by (nonlinear_arith)
        requires
            0 <= d,
            0 <= size,
    ;
    assert((d + 1) * size <= (depth + 1) * size) by (nonlinear_arith)
        requires
            d <= depth,
            0 <= size,
    ;
    assert((d + 1) * size == d * size + size) by (nonlinear_arith);
}

/// A table of a map applied `2^d` times, for each `d` up to `depth`.
/// Its view is the map itself.
pub struct Doubling {
    dp: Vec<Index>,
    /// The number of elements.
    pub size: usize,
    /// The table reaches up to `2^depth` applications.
    pub depth: Index,
}

impl View for Doubling {
    type V = Seq<Index>;

    closed spec fn view(&self) -> Seq<Index> {
        self.dp@.take(self.size as int)
    }
}

impl Doubling {
    /// The largest `d` for which the table holds `2^d` applications.
    pub closed spec fn levels(&self) -> nat {
        self.depth as nat
    }

    /// Row `d` of the table holds, for each element, where `2^d`
    /// applications of the map lead from it.
    pub closed spec fn wf(&self) -> bool {
        &&& self.dp.len() == (self.depth + 1) * self.size
        &&& closed_map(self@)
        &&& self@.len() == self.size
        &&& forall|d: int, i: int|
            0 <= d <= self.depth && 0 <= i < self.size ==> #[trigger] self.dp[d * self.size + i]
                == iterate(self@, pow2(d as nat), i)
    }

    /// Builds the table for the map `nxt`, up to `2^depth` applications.
    pub fn build(nxt: &[Index], depth: Index) -> (dbl: Self)
        requires
            closed_map(nxt@),
            (depth + 1) * nxt.len() <= usize::MAX,
        ensures
            dbl.wf(),
            dbl@ == nxt@,
            dbl.levels() == depth,
    {
        let size = nxt.len();
        let mut dp: Vec<Index> = Vec::new();
        let mut i: usize = 0;
        while i < size
            invariant
                i <= size == nxt.len(),
                dp@ == nxt@.take(i as int),
            decreases size - i,
        {
            dp.push(nxt[i]);
            proof {
                assert(dp@ =~= nxt@.take(i + 1));
            }
            i += 1;
        }
        proof {
            assert(nxt@.take(size as int) =~= nxt@);
            assert(dp@.take(size as int) =~= nxt@);
            vstd::arithmetic::power2::lemma2_to64();
            assert forall|e: int, i: int| 0 <= e <= 0 && 0 <= i < size implies #[trigger] dp[e
                * size + i] == iterate(nxt@, pow2(e as nat), i) by {
                assert(iterate(nxt@, 1, i) == iterate(nxt@, 0, nxt@[i] as int));
            }
        }
        let mut d: Index = 0;
        let mut base: usize = 0;
        while d < depth
            invariant
                d <= depth,
                size == nxt.len(),
                closed_map(nxt@),
                (depth + 1) * size <= usize::MAX,
                base == d * size,
                dp.len() == (d + 1) * size,
                dp@.take(size as int) == nxt@,
                forall|e: int, i: int|
                    0 <= e <= d && 0 <= i < size ==> #[trigger] dp[e * size + i] == iterate(
                        nxt@,
                        pow2(e as nat),
                        i,
                    ),
            decreases depth - d,
        {
            let mut i: usize = 0;
            let ghost row = dp@;
            while i < size
                invariant
                    d < depth,
                    i <= size == nxt.len(),
                    closed_map(nxt@),
                    (depth + 1) * size <= usize::MAX,
                    base == d * size,
                    row.len() == (d + 1) * size,
                    dp.len() == (d + 1) * size + i,
                    dp@.take(row.len() as int) == row,
                    forall|e: int, i: int|
                        0 <= e <= d && 0 <= i < size ==> #[trigger] row[e * size + i] == iterate(
                            nxt@,
                            pow2(e as nat),
                            i,
                        ),
                    forall|q: int|
                        0 <= q < i ==> #[trigger] dp[(d + 1) * size + q] == iterate(
                            nxt@,
                            pow2((d + 1) as nat),
                            q,
                        ),
                decreases size - i,
            {
                proof {
                    lemma_row_bound(d as int, depth as int, size as int);
                    lemma_row_bound(d + 1, depth as int, size as int);
                    assert(dp[d * size + i] == row[d * size + i]);
                    lemma_iterate_closed(nxt@, pow2(d as nat), i as int);
                }
                let mid: Index = dp[base + i];
                proof {
                    lemma_row_bound(d as int, depth as int, size as int);
                    assert(dp[d * size + mid] == row[d * size + mid]);
                    lemma_iterate_add(nxt@, pow2(d as nat), pow2(d as nat), i as int);
                    lemma_pow2_unfold((d + 1) as nat);
                }
                let far: Index = dp[base + mid as usize];
                let ghost before = dp@;
                dp.push(far);
                proof {
                    assert(dp@.take(row.len() as int) =~= before.take(row.len() as int));
                }
                i += 1;
            }
            proof {
                lemma_row_bound(d as int, depth as int, size as int);
                lemma_row_bound(d + 1, depth as int, size as int);
                assert(dp@.take(size as int) =~= row.take(size as int));
                assert forall|e: int, i: int| 0 <= e <= d + 1 && 0 <= i < size implies #[trigger] dp[e
                    * size + i] == iterate(nxt@, pow2(e as nat), i) by {
                    if e <= d {
                        lemma_row_bound(e, d as int, size as int);
                        assert(dp[e * size + i] == row[e * size + i]);
                    }
                }
            }
            base += size;
            d += 1;
        }
        Self { dp, size, depth }
    }

    /// The element reached from `src` by applying the map `k` times.
    pub fn next(&self, src: Index, k: u64) -> (dst: Index)
        requires
            self.wf(),
            src < self@.len(),
            k < pow2(self.levels() + 1),
        ensures
            dst == iterate(self@, k as nat, src as int),
    {
        let mut cur: Index = src;
        let mut rest: u64 = k;
        let mut i: u64 = 0;
        let mut base: usize = 0;
        let ghost mut done: nat = 0;
        proof {
            vstd::arithmetic::power2::lemma2_to64();
        }
        while rest > 0
            invariant
                self.wf(),
                src < self.size,
                k < pow2((self.depth + 1) as nat),
                i <= self.depth + 1,
                i <= self.depth ==> base == i * self.size,
                cur < self.size,
                cur == iterate(self@, done, src as int),
                k == rest * pow2(i as nat) + done,
                done < pow2(i as nat),
            decreases rest,
        {
            proof {
                lemma_pow2_unfold((i + 1) as nat);
                lemma_pow2_pos(i as nat);
                assert(rest * pow2(i as nat) >= pow2(i as nat)) by (nonlinear_arith)
                    requires
                        rest >= 1,
                        pow2(i as nat) > 0,
                ;
                assert(i <= self.depth);
                lemma_row_bound(i + 1, self.depth + 1, self.size as int);
                lemma_row_bound(i as int, self.depth as int, self.size as int);
                lemma_iterate_add(self@, done, pow2(i as nat), src as int);
                lemma_iterate_closed(self@, done + pow2(i as nat), src as int);
                let half = (rest / 2) as int;
                let low = (rest % 2) as int;
                let unit = pow2(i as nat) as int;
                assert(rest * unit == half * (2 * unit) + low * unit) by (nonlinear_arith)
                    requires
                        rest == 2 * half + low,
                ;
                assert(low == 1 ==> low * unit == unit);
                assert(low == 0 ==> low * unit == 0);
            }
            if rest % 2 == 1 {
                cur = self.dp[base + cur as usize];
                proof {
                    done = done + pow2(i as nat);
                }
            }
            rest = rest / 2;
            if i < self.depth as u64 {
                base += self.size;
            }
            i += 1;
        }
        cur
    }

    /// The element reached from `src` by applying the map `2^k` times.
    pub fn jump_power_of_two(&self, src: Index, k: Index) -> (dst: Index)
        requires
            self.wf(),
            src < self@.len(),
            k <= self.levels(),
        ensures
            dst == iterate(self@, pow2(k as nat), src as int),
    {
        proof {
            lemma_row_bound(k as int, self.depth as int, self.size as int);
        }
        self.dp[k as usize * self.size + src as usize]
    }
}

} // verus!
