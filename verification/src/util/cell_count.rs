use vstd::prelude::*;
use crate::util::faces::Faces;
use crate::util::indexing::suffix_product;

verus! {

/// Products of sizes that agree from axis `k` on are equal from there on.
proof fn lemma_product_agrees(a: Seq<int>, b: Seq<int>, k: int)
    requires
        a.len() == b.len(),
        0 <= k,
        forall|e: int| k <= e < a.len() ==> a[e] == b[e],
    ensures
        suffix_product(a, k) == suffix_product(b, k),
    decreases a.len() - k,
{
    if k < a.len() {
        lemma_product_agrees(a, b, k + 1);
    }
}

/// A product with a factor 0 is 0.
proof fn lemma_product_zero(a: Seq<int>, d: int, k: int)
    requires
        0 <= k <= d < a.len(),
        a[d] == 0,
    ensures
        suffix_product(a, k) == 0,
    decreases d - k,
{
    if k < d {
        lemma_product_zero(a, d, k + 1);
        let x = a[k];
        let rest = suffix_product(a, k + 1);
        assert(x * rest == 0) by (nonlinear_arith)
            requires
                rest == 0,
        ;
    } else {
        let rest = suffix_product(a, k + 1);
        assert(0 * rest == 0) by (nonlinear_arith);
    }
}

/// Where the size along axis `d` is split in two and nothing else changes,
/// the product is split in two.
proof fn lemma_product_split(a: Seq<int>, b: Seq<int>, c: Seq<int>, d: int, k: int)
    requires
        a.len() == b.len(),
        a.len() == c.len(),
        0 <= k <= d < a.len(),
        forall|e: int| 0 <= e < a.len() && e != d ==> a[e] == b[e] && a[e] == c[e],
        a[d] == b[d] + c[d],
    ensures
        suffix_product(a, k) == suffix_product(b, k) + suffix_product(c, k),
    decreases d - k,
{
    if k < d {
        lemma_product_split(a, b, c, d, k + 1);
        let x = a[k];
        let left = suffix_product(b, k + 1);
        let right = suffix_product(c, k + 1);
        assert(x * (left + right) == x * left + x * right) by (nonlinear_arith);
    } else {
        lemma_product_agrees(a, b, d + 1);
        lemma_product_agrees(a, c, d + 1);
        let rest = suffix_product(a, d + 1);
        let x = b[d];
        let y = c[d];
        assert((x + y) * rest == x * rest + y * rest) by (nonlinear_arith);
    }
}

impl Faces {
    /// Read as a box: the number of lattice points inside, which is 0 where
    /// a lower face lies above its upper face.
    pub open spec fn cells(self) -> int {
        if self.valid() {
            self.volume()
        } else {
            0
        }
    }

    /// Read as a box: what is left once the axes before `d` are cut down to
    /// `center`.
    pub open spec fn peeled(self, center: Faces, d: int) -> Faces {
        Faces {
            lo: Seq::new(
                self.lo.len(),
                |e: int|
                    if e < d {
                        center.lo[e]
                    } else {
                        self.lo[e]
                    },
            ),
            hi: Seq::new(
                self.hi.len(),
                |e: int|
                    if e < d {
                        center.hi[e]
                    } else {
                        self.hi[e]
                    },
            ),
        }
    }

    /// Read as a box: the number of lattice points in the slabs that are cut
    /// around `center` along the axes before `d`.
    pub open spec fn slab_cells(self, center: Faces, d: int) -> int
        decreases d,
    {
        if d <= 0 {
            0
        } else {
            self.slab_cells(center, d - 1) + self.slab(center, d - 1, false).cells() + self.slab(
                center,
                d - 1,
                true,
            ).cells()
        }
    }

    /// A slab has as many points as the product of its sizes says, also where
    /// it holds none.
    proof fn lemma_slab_cells(self, center: Faces, d: int, upper: bool)
        requires
            self.shaped(self.lo.len()),
            center.shaped(self.lo.len()),
            center.valid(),
            self.encloses(center),
            0 <= d < self.lo.len(),
        ensures
            self.slab(center, d, upper).cells() == self.slab(center, d, upper).volume(),
    {
        let slab = self.slab(center, d, upper);
        if !slab.valid() {
            assert forall|e: int| 0 <= e < slab.lo.len() && e != d implies slab.lo[e]
                <= slab.hi[e] by {
                assert(center.lo[e] <= center.hi[e]);
                assert(self.lo[e] <= center.lo[e]);
                assert(center.hi[e] <= self.hi[e]);
            }
            assert(center.lo[d] <= center.hi[d]);
            assert(self.lo[d] <= center.lo[d]);
            assert(center.hi[d] <= self.hi[d]);
            assert(slab.sizes()[d] == 0);
            lemma_product_zero(slab.sizes(), d, 0);
        }
    }

    /// Peeling one axis splits what is left into the two slabs of that axis
    /// and what is left then.
    proof fn lemma_peel_counts(self, center: Faces, d: int)
        requires
            self.shaped(self.lo.len()),
            center.shaped(self.lo.len()),
            center.valid(),
            self.encloses(center),
            0 <= d < self.lo.len(),
        ensures
            self.peeled(center, d).volume() == self.slab(center, d, false).cells() + self.slab(
                center,
                d,
                true,
            ).cells() + self.peeled(center, d + 1).volume(),
    {
        let whole = self.peeled(center, d).sizes();
        let lower = self.slab(center, d, false).sizes();
        let upper = self.slab(center, d, true).sizes();
        let rest = self.peeled(center, d + 1).sizes();
        let above = Seq::new(
            self.lo.len(),
            |e: int|
                if e == d {
                    upper[d] + rest[d]
                } else {
                    whole[e]
                },
        );
        self.lemma_slab_cells(center, d, false);
        self.lemma_slab_cells(center, d, true);
        lemma_product_split(whole, lower, above, d, 0);
        lemma_product_split(above, upper, rest, d, 0);
    }

    /// The axes before `d` peeled, the box has as many points as the slabs of
    /// those axes and what is left together.
    proof fn lemma_peeled_counts(self, center: Faces, d: int)
        requires
            self.shaped(self.lo.len()),
            center.shaped(self.lo.len()),
            center.valid(),
            self.encloses(center),
            0 <= d <= self.lo.len(),
        ensures
            self.volume() == self.slab_cells(center, d) + self.peeled(center, d).volume(),
        decreases d,
    {
        if d == 0 {
            assert(self.peeled(center, 0).lo =~= self.lo);
            assert(self.peeled(center, 0).hi =~= self.hi);
        } else {
            self.lemma_peeled_counts(center, d - 1);
            self.lemma_peel_counts(center, d - 1);
        }
    }

    /// The slabs cut around a box `center` that lies inside `self` hold,
    /// together with `center`, as many points as `self`.
    pub proof fn lemma_decomposition_counts(self, center: Faces)
        requires
            self.shaped(self.lo.len()),
            center.shaped(self.lo.len()),
            center.valid(),
            self.encloses(center),
        ensures
            self.volume() == center.volume() + self.slab_cells(center, self.lo.len() as int),
    {
        let n = self.lo.len() as int;
        self.lemma_peeled_counts(center, n);
        assert(self.peeled(center, n).lo =~= center.lo);
        assert(self.peeled(center, n).hi =~= center.hi);
    }
}

} // verus!
