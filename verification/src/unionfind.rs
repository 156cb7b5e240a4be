//! Disjoint sets of the numbers `0..n`: joining two sets, asking whether two
//! numbers are in one set, and asking how large the set of a number is.
//!
//! Each set is a tree whose root stands for the set. An entry of `data` that
//! is not negative is the parent of its element; a negative entry marks a
//! root and is the size of its set, negated.

use vstd::prelude::*;

verus! {

/// Whether every entry of `data` is negative or points to an element of
/// greater level.
pub open spec fn links_ok(data: Seq<i32>, levels: Seq<nat>, bound: nat) -> bool {
    &&& data.len() == levels.len()
    &&& data.len() <= i32::MAX
    &&& forall|v: int| 0 <= v < data.len() ==> #[trigger] levels[v] <= bound
    &&& forall|v: int|
        0 <= v < data.len() && #[trigger] data[v] >= 0 ==> data[v] < data.len()
            && levels[data[v] as int] > levels[v]
}

/// The root of the tree that `v` is in.
pub open spec fn root_of(data: Seq<i32>, levels: Seq<nat>, bound: nat, v: int) -> int
    decreases bound - levels[v],
    when links_ok(data, levels, bound) && 0 <= v < data.len()
{
    if data[v] < 0 {
        v
    } else {
        root_of(data, levels, bound, data[v] as int)
    }
}

/// The number of elements below `upto` whose root is `r`.
pub open spec fn count_rooted(
    data: Seq<i32>,
    levels: Seq<nat>,
    bound: nat,
    r: int,
    upto: int,
) -> nat
    decreases upto,
{
    if upto <= 0 {
        0
    } else {
        count_rooted(data, levels, bound, r, upto - 1) + if root_of(data, levels, bound, upto - 1)
            == r {
            1nat
        } else {
            0nat
        }
    }
}

/// The root of an element is a root, and its level is not less than the
/// level of the element; it is greater where the element is no root.
proof fn lemma_root(data: Seq<i32>, levels: Seq<nat>, bound: nat, v: int)
    requires
        links_ok(data, levels, bound),
        0 <= v < data.len(),
    ensures
        0 <= root_of(data, levels, bound, v) < data.len(),
        data[root_of(data, levels, bound, v)] < 0,
        levels[root_of(data, levels, bound, v)] >= levels[v],
        data[v] >= 0 ==> levels[root_of(data, levels, bound, v)] > levels[v],
        data[v] < 0 ==> root_of(data, levels, bound, v) == v,
    decreases bound - levels[v],
{
    if data[v] >= 0 {
        lemma_root(data, levels, bound, data[v] as int);
    }
}

/// Where two states give every element the same root, they give each root
/// the same number of elements.
proof fn lemma_count_same(
    d1: Seq<i32>,
    l1: Seq<nat>,
    b1: nat,
    d2: Seq<i32>,
    l2: Seq<nat>,
    b2: nat,
    r: int,
    upto: int,
)
    requires
        forall|x: int| 0 <= x < upto ==> root_of(d1, l1, b1, x) == root_of(d2, l2, b2, x),
    ensures
        count_rooted(d1, l1, b1, r, upto) == count_rooted(d2, l2, b2, r, upto),
    decreases upto,
{
    if upto > 0 {
        lemma_count_same(d1, l1, b1, d2, l2, b2, r, upto - 1);
    }
}

/// Two roots have together no more elements than there are.
proof fn lemma_count_two(data: Seq<i32>, levels: Seq<nat>, bound: nat, a: int, b: int, upto: int)
    requires
        a != b,
        0 <= upto,
    ensures
        count_rooted(data, levels, bound, a, upto) + count_rooted(data, levels, bound, b, upto)
            <= upto,
    decreases upto,
{
    if upto > 0 {
        lemma_count_two(data, levels, bound, a, b, upto - 1);
    }
}

/// Pointing an element at its root changes the root of no element.
proof fn lemma_compress(data: Seq<i32>, levels: Seq<nat>, bound: nat, v: int, x: int)
    requires
        links_ok(data, levels, bound),
        0 <= v < data.len(),
        0 <= x < data.len(),
        data[v] >= 0,
    ensures
        links_ok(data.update(v, root_of(data, levels, bound, v) as i32), levels, bound),
        root_of(data.update(v, root_of(data, levels, bound, v) as i32), levels, bound, x)
            == root_of(data, levels, bound, x),
    decreases bound - levels[x],
{
    let r = root_of(data, levels, bound, v);
    let changed = data.update(v, r as i32);
    lemma_root(data, levels, bound, v);
    assert(links_ok(changed, levels, bound));
    if x == v {
        lemma_root(changed, levels, bound, r);
    } else if data[x] >= 0 {
        lemma_compress(data, levels, bound, v, data[x] as int);
    }
}

/// Hanging the root `b` under the root `a`: the elements of `b` get the
/// root `a`, and the others keep theirs.
proof fn lemma_link(
    data: Seq<i32>,
    levels: Seq<nat>,
    bound: nat,
    a: int,
    b: int,
    size: i32,
    x: int,
)
    requires
        links_ok(data, levels, bound),
        0 <= a < data.len(),
        0 <= b < data.len(),
        0 <= x < data.len(),
        a != b,
        data[a] < 0,
        data[b] < 0,
        size < 0,
    ensures
        ({
            let top = if levels[a] > levels[b] {
                levels[a]
            } else {
                levels[b] + 1
            };
            let new_levels = levels.update(a, top as nat);
            let new_bound = if bound >= top {
                bound
            } else {
                top as nat
            };
            let new_data = data.update(a, size).update(b, a as i32);
            &&& links_ok(new_data, new_levels, new_bound)
            &&& root_of(new_data, new_levels, new_bound, x) == if root_of(data, levels, bound, x)
                == b {
                a
            } else {
                root_of(data, levels, bound, x)
            }
        }),
    decreases bound - levels[x],
{
    let top = if levels[a] > levels[b] {
        levels[a]
    } else {
        levels[b] + 1
    };
    let new_levels = levels.update(a, top as nat);
    let new_bound = if bound >= top {
        bound
    } else {
        top as nat
    };
    let new_data = data.update(a, size).update(b, a as i32);
    assert(links_ok(new_data, new_levels, new_bound)) by {
        assert forall|v: int| 0 <= v < new_data.len() && #[trigger] new_data[v] >= 0 implies new_data[v]
            < new_data.len() && new_levels[new_data[v] as int] > new_levels[v] by {
            if v != b {
                assert(data[v] >= 0);
            }
        }
    }
    if x == a {
    } else if x == b {
        assert(root_of(new_data, new_levels, new_bound, a) == a);
    } else if data[x] >= 0 {
        lemma_link(data, levels, bound, a, b, size, data[x] as int);
    }
}

/// The number of elements of the joined root and of the other roots after
/// hanging the root `b` under the root `a`.
proof fn lemma_link_count(
    d1: Seq<i32>,
    l1: Seq<nat>,
    b1: nat,
    d2: Seq<i32>,
    l2: Seq<nat>,
    b2: nat,
    a: int,
    b: int,
    r: int,
    upto: int,
)
    requires
        a != b,
        forall|x: int|
            0 <= x < upto ==> root_of(d2, l2, b2, x) == if root_of(d1, l1, b1, x) == b {
                a
            } else {
                root_of(d1, l1, b1, x)
            },
    ensures
        count_rooted(d2, l2, b2, r, upto) == if r == a {
            count_rooted(d1, l1, b1, a, upto) + count_rooted(d1, l1, b1, b, upto)
        } else if r == b {
            0
        } else {
            count_rooted(d1, l1, b1, r, upto)
        },
    decreases upto,
{
    if upto > 0 {
        lemma_link_count(d1, l1, b1, d2, l2, b2, a, b, r, upto - 1);
    }
}

/// Disjoint sets of the numbers below a fixed number.
pub struct UnionFind {
    data: Vec<i32>,
    levels: Ghost<Seq<nat>>,
    bound: Ghost<nat>,
}

impl UnionFind {
    /// The number of elements.
    pub closed spec fn len(&self) -> nat {
        self.data.len() as nat
    }

    /// The element that stands for the set of `v`.
    pub closed spec fn root(&self, v: int) -> int {
        root_of(self.data@, self.levels@, self.bound@, v)
    }

    /// Whether `u` and `v` are in one set.
    pub open spec fn same(&self, u: int, v: int) -> bool {
        self.root(u) == self.root(v)
    }

    /// The number of elements of the set of `v`.
    pub closed spec fn class_size(&self, v: int) -> nat {
        count_rooted(self.data@, self.levels@, self.bound@, self.root(v), self.data.len() as int)
    }

    /// The links lead upwards to the roots, and each root holds the size of
    /// its set.
    pub closed spec fn wf(&self) -> bool {
        &&& self.data.len() <= i32::MAX
        &&& links_ok(self.data@, self.levels@, self.bound@)
        &&& forall|r: int|
            0 <= r < self.data.len() && #[trigger] self.data[r] < 0 ==> -self.data[r]
                == count_rooted(
                self.data@,
                self.levels@,
                self.bound@,
                r,
                self.data.len() as int,
            )
    }

    /// The sets `{0}`, `{1}`, ..., `{size - 1}`.
    pub fn new(size: usize) -> (uf: Self)
        requires
            size <= i32::MAX,
        ensures
            uf.wf(),
            uf.len() == size,
            forall|v: int| 0 <= v < size ==> uf.root(v) == v,
            forall|v: int| 0 <= v < size ==> uf.class_size(v) == 1,
    {
        let mut data: Vec<i32> = Vec::new();
        let mut i: usize = 0;
        while i < size
            invariant
                i <= size,
                data.len() == i,
                forall|v: int| 0 <= v < i ==> #[trigger] data[v] == -1,
            decreases size - i,
        {
            data.push(-1);
            i += 1;
        }
        let ghost levels = Seq::new(size as nat, |v: int| 0nat);
        let uf = UnionFind { data, levels: Ghost(levels), bound: Ghost(0nat) };
        proof {
            assert(links_ok(uf.data@, levels, 0));
            assert forall|r: int| 0 <= r < size implies count_rooted(
                uf.data@,
                levels,
                0,
                r,
                size as int,
            ) == 1 by {
                lemma_count_single(uf.data@, levels, 0, r, size as int);
            }
        }
        uf
    }

    /// The root of the set of `v`. Points `v` and the elements between it
    /// and the root at the root.
    fn _find(&mut self, v: usize) -> (r: usize)
        requires
            old(self).wf(),
            v < old(self).len(),
        ensures
            final(self).wf(),
            final(self).len() == old(self).len(),
            r == old(self).root(v as int),
            r < old(self).len(),
            forall|x: int| 0 <= x < old(self).len() ==> final(self).root(x) == old(self).root(x),
            forall|x: int|
                0 <= x < old(self).len() ==> final(self).class_size(x) == old(self).class_size(x),
            final(self).data[r as int] < 0,
            final(self).data[r as int] == -final(self).class_size(r as int),
            final(self).levels@ == old(self).levels@,
            final(self).bound@ == old(self).bound@,
        decreases old(self).bound@ - old(self).levels@[v as int],
    {
        let ghost d0 = self.data@;
        let ghost l0 = self.levels@;
        let ghost b0 = self.bound@;
        proof {
            lemma_root(d0, l0, b0, v as int);
        }
        if self.data[v] < 0 {
            return v;
        }
        let parent = self.data[v] as usize;
        let r = self._find(parent);
        let ghost d1 = self.data@;
        proof {
            assert(self.levels@ == l0 && self.bound@ == b0);
            lemma_root(d1, l0, b0, v as int);
            assert(root_of(d0, l0, b0, v as int) == root_of(d0, l0, b0, parent as int));
            assert(self.root(v as int) == root_of(d0, l0, b0, v as int));
            assert(root_of(d1, l0, b0, v as int) == r);
            assert forall|x: int| 0 <= x < d1.len() implies root_of(
                d1.update(v as int, r as i32),
                l0,
                b0,
                x,
            ) == root_of(d1, l0, b0, x) by {
                if d1[v as int] >= 0 {
                    lemma_compress(d1, l0, b0, v as int, x);
                }
            }
            if d1[v as int] >= 0 {
                lemma_compress(d1, l0, b0, v as int, v as int);
            }
        }
        self.data[v] = r as i32;
        proof {
            let d2 = self.data@;
            assert(d2 == d1.update(v as int, r as i32));
            assert forall|q: int| 0 <= q < d2.len() implies count_rooted(
                d2,
                l0,
                b0,
                q,
                d2.len() as int,
            ) == count_rooted(d1, l0, b0, q, d1.len() as int) by {
                lemma_count_same(d2, l0, b0, d1, l0, b0, q, d1.len() as int);
            }
            assert forall|x: int| 0 <= x < d1.len() implies 0 <= #[trigger] root_of(d1, l0, b0, x)
                < d1.len() by {
                lemma_root(d1, l0, b0, x);
            }
        }
        r
    }

    /// Whether `u` and `v` are in one set.
    pub fn is_same(&mut self, u: usize, v: usize) -> (b: bool)
        requires
            old(self).wf(),
            u < old(self).len(),
            v < old(self).len(),
        ensures
            final(self).wf(),
            final(self).len() == old(self).len(),
            b == old(self).same(u as int, v as int),
            forall|x: int| 0 <= x < old(self).len() ==> final(self).root(x) == old(self).root(x),
            forall|x: int|
                0 <= x < old(self).len() ==> final(self).class_size(x) == old(self).class_size(x),
    {
        let a = self._find(u);
        let b = self._find(v);
        a == b
    }

    /// Joins the set of `a` and the set of `b`.
    pub fn unite(&mut self, a: usize, b: usize)
        requires
            old(self).wf(),
            a < old(self).len(),
            b < old(self).len(),
        ensures
            final(self).wf(),
            final(self).len() == old(self).len(),
            forall|x: int, y: int|
                0 <= x < old(self).len() && 0 <= y < old(self).len() ==> (#[trigger] final(self).same(x, y)
                    <==> joined(old(self), a as int, b as int, x, y)),
            forall|x: int|
                0 <= x < old(self).len() ==> #[trigger] final(self).class_size(x) == joined_size(
                    old(self),
                    a as int,
                    b as int,
                    x,
                ),
    {
        let ghost n = self.data.len() as int;
        let mut ra = self._find(a);
        let mut rb = self._find(b);
        if ra == rb {
            return;
        }
        if self.data[ra] > self.data[rb] {
            let t = ra;
            ra = rb;
            rb = t;
        }
        let ghost d1 = self.data@;
        let ghost l1 = self.levels@;
        let ghost b1 = self.bound@;
        proof {
            lemma_count_two(d1, l1, b1, ra as int, rb as int, n);
            lemma_root(d1, l1, b1, ra as int);
            lemma_root(d1, l1, b1, rb as int);
        }
        let total: i32 = self.data[ra] + self.data[rb];
        self.data[ra] = total;
        self.data[rb] = ra as i32;
        proof {
            let top = if l1[ra as int] > l1[rb as int] {
                l1[ra as int]
            } else {
                l1[rb as int] + 1
            };
            self.levels@ = l1.update(ra as int, top as nat);
            self.bound@ = if b1 >= top {
                b1
            } else {
                top as nat
            };
            let d2 = self.data@;
            let l2 = self.levels@;
            let b2 = self.bound@;
            assert(d2 == d1.update(ra as int, total).update(rb as int, ra as i32));
            assert forall|x: int| 0 <= x < n implies root_of(d2, l2, b2, x) == if root_of(
                d1,
                l1,
                b1,
                x,
            ) == rb {
                ra as int
            } else {
                root_of(d1, l1, b1, x)
            } by {
                lemma_link(d1, l1, b1, ra as int, rb as int, total, x);
            }
            lemma_link(d1, l1, b1, ra as int, rb as int, total, ra as int);
            assert forall|r: int| 0 <= r < n implies count_rooted(d2, l2, b2, r, n) == if r == ra {
                count_rooted(d1, l1, b1, ra as int, n) + count_rooted(d1, l1, b1, rb as int, n)
            } else if r == rb {
                0
            } else {
                count_rooted(d1, l1, b1, r, n)
            } by {
                lemma_link_count(d1, l1, b1, d2, l2, b2, ra as int, rb as int, r, n);
            }
            assert forall|x: int| 0 <= x < n implies 0 <= #[trigger] root_of(d1, l1, b1, x) < n by {
                lemma_root(d1, l1, b1, x);
            }
        }
    }

    /// The number of elements of the set of `v`.
    pub fn size(&mut self, v: usize) -> (s: i32)
        requires
            old(self).wf(),
            v < old(self).len(),
        ensures
            final(self).wf(),
            final(self).len() == old(self).len(),
            s == old(self).class_size(v as int),
            forall|x: int| 0 <= x < old(self).len() ==> final(self).root(x) == old(self).root(x),
            forall|x: int|
                0 <= x < old(self).len() ==> final(self).class_size(x) == old(self).class_size(x),
    {
        let r = self._find(v);
        proof {
            lemma_count_two(
                self.data@,
                self.levels@,
                self.bound@,
                r as int,
                -1,
                self.data.len() as int,
            );
        }
        -self.data[r]
    }
}

/// Whether `x` and `y` are in one set once the sets of `a` and `b` of `uf`
/// are joined.
pub open spec fn joined(uf: &UnionFind, a: int, b: int, x: int, y: int) -> bool {
    uf.same(x, y) || (uf.same(x, a) && uf.same(y, b)) || (uf.same(x, b) && uf.same(y, a))
}

/// The size of the set of `x` once the sets of `a` and `b` of `uf` are
/// joined.
pub open spec fn joined_size(uf: &UnionFind, a: int, b: int, x: int) -> nat {
    if uf.same(x, a) || uf.same(x, b) {
        if uf.same(a, b) {
            uf.class_size(a)
        } else {
            uf.class_size(a) + uf.class_size(b)
        }
    } else {
        uf.class_size(x)
    }
}

/// Where every element is its own root, each root has one element.
proof fn lemma_count_single(data: Seq<i32>, levels: Seq<nat>, bound: nat, r: int, upto: int)
    requires
        links_ok(data, levels, bound),
        0 <= upto <= data.len(),
        forall|v: int| 0 <= v < data.len() ==> #[trigger] data[v] < 0,
    ensures
        count_rooted(data, levels, bound, r, upto) == if 0 <= r < upto {
            1nat
        } else {
            0nat
        },
    decreases upto,
{
    if upto > 0 {
        lemma_count_single(data, levels, bound, r, upto - 1);
    }
}

} // verus!
