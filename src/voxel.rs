use vstd::prelude::*;

verus! {

/// The capability every voxel type provides.
///
/// Variants are enumerated in a fixed order by `all()`; `raw()` is the position of a
/// variant in that order, and the first variant is the empty one.
pub trait Voxel: Sized + Copy {
    /// Whether the value occludes faces and blocks light.
    spec fn spec_is_opaque(&self) -> bool;

    /// The stable numeric id of the value: its position in `all()`.
    spec fn spec_raw(&self) -> nat;

    /// The number of variants.
    spec fn spec_count() -> nat;

    /// The canonical empty value.
    spec fn spec_empty() -> Self;

    /// Distinct variants have distinct ids, every id lies below the variant count,
    /// the empty id is 0, and there are at least two variants.
    proof fn lemma_raw(a: Self, b: Self)
        ensures
            a.spec_raw() == b.spec_raw() ==> a == b,
            a.spec_raw() < Self::spec_count(),
            a.spec_raw() == 0 <==> !a.spec_is_opaque(),
            Self::spec_empty().spec_raw() == 0,
            2 <= Self::spec_count() <= 256,
    ;

    /// The canonical empty value.
    fn default_empty() -> (r: Self)
        ensures
            r == Self::spec_empty(),
    ;

    /// The canonical opaque value.
    fn default_opaque() -> (r: Self)
        ensures
            r.spec_is_opaque(),
    ;

    fn is_opaque(&self) -> (r: bool)
        ensures
            r == self.spec_is_opaque(),
    ;

    /// Threshold selection at `t = t_num / t_den`: `a` when `t < 1/2`, else `b`.
    fn lerp(a: Self, b: Self, t_num: u64, t_den: u64) -> (r: Self)
        requires
            t_den > 0,
        ensures
            r == (if 2 * (t_num as int) < t_den as int { a } else { b }),
    ;

    fn raw(&self) -> (r: u32)
        ensures
            r as nat == self.spec_raw(),
    ;

    /// Every variant once, in id order.
    fn all() -> (r: Vec<Self>)
        ensures
            r@.len() == Self::spec_count(),
            forall|i: int| 0 <= i < r@.len() ==> (#[trigger] r@[i]).spec_raw() == i,
    ;
}

/// Decides equality of two voxels through their ids.
pub fn same_voxel<V: Voxel>(a: &V, b: &V) -> (r: bool)
    ensures
        r == (*a == *b),
{
    proof {
        V::lemma_raw(*a, *b);
    }
    a.raw() == b.raw()
}

} // verus!
