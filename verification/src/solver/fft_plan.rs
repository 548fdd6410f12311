use vstd::prelude::*;
use crate::error::SolveError;
use crate::util::aabb::AABB;
use crate::util::faces::Faces;
use crate::util::indexing::{complex_volume, positive, volume};

verus! {

/// How much effort the transform library spends on finding a fast plan.
#[derive(Copy, Clone, Debug, PartialEq, Eq, Structural)]
pub enum PlanType {
    /// Create an optimized plan.
    Measure,
    /// Create an optimized plan with a more exhaustive search than `Measure`.
    Patient,
    /// Create a plan quickly, without measuring.
    Estimate,
    /// Create a plan only from wisdom that was loaded before.
    WisdomOnly,
}

impl Default for PlanType {
    fn default() -> (r: Self)
        ensures
            r == PlanType::Measure,
    {
        PlanType::Measure
    }
}

/// `fftw::types::Flag`, the planner flags of the transform library.  Of a
/// flag only its bits are spoken of here.
#[verifier::external_type_specification]
#[verifier::external_body]
pub struct ExFlag(fftw::types::Flag);

/// `fftw::error::Error`, the errors of the transform library.  Nothing is
/// known of an error here.
#[verifier::external_type_specification]
#[verifier::external_body]
pub struct ExError(fftw::error::Error);

/// The bits that `fftw::types::Flag::bits` reads from a flag.
pub uninterp spec fn flag_bits(flag: fftw::types::Flag) -> u32;

/// `fftw::types::Flag::bits` hands back the bits of a flag.
pub assume_specification[ fftw::types::Flag::bits ](flag: &fftw::types::Flag) -> (r: u32)
    ensures
        r == flag_bits(*flag),
;

/// `Flag::MEASURE`, which the transform library defines with no bit set.
#[verifier::external_body]
fn measure_flag() -> (r: fftw::types::Flag)
    ensures
        flag_bits(r) == 0,
{
    fftw::types::Flag::MEASURE
}

/// `Flag::PATIENT`, which the transform library defines as bit 5.
#[verifier::external_body]
fn patient_flag() -> (r: fftw::types::Flag)
    ensures
        flag_bits(r) == 0x20,
{
    fftw::types::Flag::PATIENT
}

/// `Flag::ESTIMATE`, which the transform library defines as bit 6.
#[verifier::external_body]
fn estimate_flag() -> (r: fftw::types::Flag)
    ensures
        flag_bits(r) == 0x40,
{
    fftw::types::Flag::ESTIMATE
}

/// `Flag::WISDOWMONLY`, which the transform library defines as bit 21.
#[verifier::external_body]
fn wisdom_only_flag() -> (r: fftw::types::Flag)
    ensures
        flag_bits(r) == 0x20_0000,
{
    fftw::types::Flag::WISDOWMONLY
}

impl PlanType {
    /// The planner bits that stand for this option: none for `Measure`, bit 5
    /// for `Patient`, bit 6 for `Estimate` and bit 21 for `WisdomOnly`.
    pub open spec fn planner_bits(self) -> u32 {
        match self {
            PlanType::Measure => 0u32,
            PlanType::Patient => 0x20u32,
            PlanType::Estimate => 0x40u32,
            PlanType::WisdomOnly => 0x20_0000u32,
        }
    }

    /// The flag of the transform library for this option.
    pub fn to_fftw3_flag(&self) -> (r: fftw::types::Flag)
        ensures
            flag_bits(r) == self.planner_bits(),
    {
        match self {
            PlanType::Measure => measure_flag(),
            PlanType::Patient => patient_flag(),
            PlanType::Estimate => estimate_flag(),
            PlanType::WisdomOnly => wisdom_only_flag(),
        }
    }

    /// The planner bits of the transform library for this option, as a
    /// number.
    pub fn to_fftw3_bits(&self) -> (r: u32)
        ensures
            r == self.planner_bits(),
    {
        self.to_fftw3_flag().bits()
    }
}

/// What a transform plan is made for: the box whose extent it transforms.
#[derive(Copy, Clone, Debug, Hash, PartialEq, Eq)]
pub struct FFTPlanDescriptor<const GRID_DIMENSION: usize> {
    pub bound: AABB<GRID_DIMENSION>,
}

impl<const GRID_DIMENSION: usize> FFTPlanDescriptor<GRID_DIMENSION> {
    pub fn new(bound: AABB<GRID_DIMENSION>) -> (r: Self)
        ensures
            r.bound == bound,
    {
        FFTPlanDescriptor { bound }
    }
}

/// A real-to-complex plan of the transform library.  The plan type of the
/// library is bounded by one of its own traits, so it is kept behind this
/// struct, of which nothing is known here.
#[verifier::external_body]
pub struct ForwardPlan {
    pub plan: fftw::plan::R2CPlan64,
}

/// A complex-to-real plan of the transform library, kept as [`ForwardPlan`]
/// is.
#[verifier::external_body]
pub struct BackwardPlan {
    pub plan: fftw::plan::C2RPlan64,
}

/// A grid shape that the planner of the transform library can take: at least
/// one axis, at least one cell and no more than `i32::MAX` cells along each,
/// and buffers for the grid and for its spectrum that stay within the largest
/// slice: 8 bytes per real cell and 16 per complex cell.
pub open spec fn plannable(shape: Seq<int>) -> bool {
    &&& shape.len() >= 1
    &&& positive(shape)
    &&& forall|d: int| 0 <= d < shape.len() ==> #[trigger] shape[d] <= i32::MAX
    &&& 8 * volume(shape) <= isize::MAX
    &&& 16 * complex_volume(shape) <= isize::MAX
}

/// `R2CPlan::aligned` for 64-bit reals: allocates a real buffer of the
/// grid's volume and a complex buffer for its spectrum and asks the library
/// for a plan between them.  Whether a plan comes back depends on the
/// library's wisdom and on the machine, so nothing is promised of the result.
#[verifier::external_body]
fn plan_forward(shape: &[usize], flag: fftw::types::Flag) -> (r: Result<
    ForwardPlan,
    fftw::error::Error,
>)
    requires
        plannable(shape@.map_values(|n: usize| n as int)),
{
    let made: Result<fftw::plan::R2CPlan64, fftw::error::Error> = fftw::plan::R2CPlan::aligned(
        shape,
        flag,
    );
    made.map(|plan| ForwardPlan { plan })
}

/// `C2RPlan::aligned` for 64-bit reals: as [`plan_forward`], for the
/// transform back.
#[verifier::external_body]
fn plan_backward(shape: &[usize], flag: fftw::types::Flag) -> (r: Result<
    BackwardPlan,
    fftw::error::Error,
>)
    requires
        plannable(shape@.map_values(|n: usize| n as int)),
{
    let made: Result<fftw::plan::C2RPlan64, fftw::error::Error> = fftw::plan::C2RPlan::aligned(
        shape,
        flag,
    );
    made.map(|plan| BackwardPlan { plan })
}

/// What planning hands back, with the library's error replaced by this
/// crate's: a plan stays what it is, and every failure is `FFTPlanFailed`.
pub fn plan_or_error<T>(made: Result<T, fftw::error::Error>) -> (r: Result<T, SolveError>)
    ensures
        made is Ok ==> r == Ok::<T, SolveError>(made->Ok_0),
        made is Err ==> r == Err::<T, SolveError>(SolveError::FFTPlanFailed),
{
    match made {
        Ok(plan) => Ok(plan),
        Err(_) => Err(SolveError::FFTPlanFailed),
    }
}

/// The number of cells along each axis of `bound`, as the planner takes it.
pub fn plan_shape<const GRID_DIMENSION: usize>(bound: &AABB<GRID_DIMENSION>) -> (r: [usize;
    GRID_DIMENSION])
    requires
        bound@.valid(),
        forall|d: int| 0 <= d < GRID_DIMENSION ==> #[trigger] bound@.size(d) <= i32::MAX,
    ensures
        r@.map_values(|n: usize| n as int) == bound@.sizes(),
{
    let size = bound.exclusive_bounds();
    let mut r: [usize; GRID_DIMENSION] = [0usize; GRID_DIMENSION];
    let mut d: usize = 0;
    while d < GRID_DIMENSION
        invariant
            d <= GRID_DIMENSION,
            bound@.valid(),
            crate::util::faces::point(size) == bound@.sizes(),
            forall|e: int| 0 <= e < d ==> r[e] == bound@.size(e),
        decreases GRID_DIMENSION - d,
    {
        proof {
            assert(bound@.lo[d as int] <= bound@.hi[d as int]);
            assert(crate::util::faces::point(size)[d as int] == bound@.sizes()[d as int]);
        }
        r[d] = size[d] as usize;
        d += 1;
    }
    assert(r@.map_values(|n: usize| n as int) =~= bound@.sizes());
    r
}

/// The pair of plans that carries a real field on one box to its spectrum
/// and back.
pub struct FFTPlan {
    pub forward_plan: ForwardPlan,
    pub backward_plan: BackwardPlan,
}

impl FFTPlan {
    /// Plan both transforms for the extent of `bound`.  The forward plan is
    /// made first; the backward plan is asked for only once that succeeded.
    /// The transform library decides whether a plan can be made.
    pub fn new<const GRID_DIMENSION: usize>(bound: AABB<GRID_DIMENSION>, plan_type: PlanType) -> (r:
        Result<FFTPlan, SolveError>)
        requires
            bound@.valid(),
            plannable(bound@.sizes()),
        ensures
            r is Err ==> r->Err_0 == SolveError::FFTPlanFailed,
    {
        proof {
            assert forall|d: int| 0 <= d < GRID_DIMENSION implies #[trigger] bound@.size(d)
                <= i32::MAX by {
                assert(bound@.sizes()[d] <= i32::MAX);
            }
        }
        let plan_size = plan_shape(&bound);
        let forward = plan_or_error(plan_forward(plan_size.as_slice(), plan_type.to_fftw3_flag()));
        match forward {
            Err(e) => Err(e),
            Ok(forward_plan) => {
                let backward = plan_or_error(
                    plan_backward(plan_size.as_slice(), plan_type.to_fftw3_flag()),
                );
                match backward {
                    Err(e) => Err(e),
                    Ok(backward_plan) => Ok(FFTPlan { forward_plan, backward_plan }),
                }
            },
        }
    }
}

/// Transform plans kept by the box they were made for, so that each box is
/// planned once.
pub struct FFTPlanLibrary<const GRID_DIMENSION: usize> {
    pub plan_map: Vec<(FFTPlanDescriptor<GRID_DIMENSION>, FFTPlan)>,
    pub plan_type: PlanType,
}

impl<const GRID_DIMENSION: usize> FFTPlanLibrary<GRID_DIMENSION> {
    /// The boxes for which a plan is kept, in the order in which they came.
    pub open spec fn keys(&self) -> Seq<Faces> {
        Seq::new(self.plan_map@.len(), |i: int| self.plan_map@[i].0.bound@)
    }

    /// No box is kept twice.
    pub open spec fn wf(&self) -> bool {
        forall|i: int, j: int|
            0 <= i < j < self.plan_map@.len() ==> self.plan_map@[i].0.bound@
                != self.plan_map@[j].0.bound@
    }

    /// An empty library that plans with `plan_type`.
    pub fn new(plan_type: PlanType) -> (r: Self)
        ensures
            r.plan_map@.len() == 0,
            r.plan_type == plan_type,
            r.wf(),
    {
        FFTPlanLibrary { plan_map: Vec::new(), plan_type }
    }

    /// Where the plan for `bound` is kept, if there is one.
    pub fn find(&self, bound: &AABB<GRID_DIMENSION>) -> (r: Option<usize>)
        ensures
            r is Some ==> r->0 < self.plan_map@.len() && self.keys()[r->0 as int] == bound@,
            r is None ==> !self.keys().contains(bound@),
    {
        let mut i: usize = 0;
        while i < self.plan_map.len()
            invariant
                i <= self.plan_map@.len(),
                forall|j: int| 0 <= j < i ==> self.keys()[j] != bound@,
            decreases self.plan_map@.len() - i,
        {
            if self.plan_map[i].0.bound.same_bounds(bound) {
                return Some(i);
            }
            i += 1;
        }
        None
    }

    /// The plan for `bound`.  A plan that is kept is handed out as it is; one
    /// that is missing is made first and kept from then on.  Where it cannot
    /// be made the library stays as it was.
    pub fn get_plan(&mut self, bound: AABB<GRID_DIMENSION>) -> (r: Result<&mut FFTPlan, SolveError>)
        requires
            old(self).wf(),
            bound@.valid(),
            plannable(bound@.sizes()),
        ensures
            r is Err ==> r->Err_0 == SolveError::FFTPlanFailed && !old(self).keys().contains(bound@)
                && *final(self) == *old(self),
            r is Ok ==> final(self).wf() && final(self).plan_type == old(self).plan_type,
            r is Ok && old(self).keys().contains(bound@) ==> final(self).keys() =~= old(self).keys()
                && exists|i: int|
                0 <= i < old(self).plan_map@.len() && old(self).keys()[i] == bound@ && *(r->Ok_0)
                    == #[trigger] old(self).plan_map@[i].1,
            r is Ok && !old(self).keys().contains(bound@) ==> final(self).keys() =~= old(
                self,
            ).keys().push(bound@),
            r is Ok ==> forall|i: int|
                0 <= i < final(self).plan_map@.len() ==> if final(self).keys()[i] == bound@ {
                    (#[trigger] final(self).plan_map@[i]).1 == *final(r->Ok_0)
                } else {
                    i < old(self).plan_map@.len() && final(self).plan_map@[i] == old(
                        self,
                    ).plan_map@[i]
                },
    {
        let ghost before = *self;
        let found = self.find(&bound);
        let at = match found {
            Some(at) => at,
            None => {
                let plan = match FFTPlan::new(bound, self.plan_type) {
                    Ok(plan) => plan,
                    Err(e) => {
                        return Err(e);
                    },
                };
                self.plan_map.push((FFTPlanDescriptor::new(bound), plan));
                self.plan_map.len() - 1
            },
        };
        let ghost mid = *self;
        proof {
            assert(mid.keys()[at as int] == bound@);
            if found is Some {
                assert(mid == before);
                assert(before.keys().contains(bound@));
            } else {
                assert(mid.keys() =~= before.keys().push(bound@));
                assert forall|i: int, j: int| 0 <= i < j < mid.plan_map@.len() implies mid.plan_map@[i].0.bound@
                    != mid.plan_map@[j].0.bound@ by {
                    if j == at {
                        assert(before.keys()[i] == mid.plan_map@[i].0.bound@);
                    }
                }
            }
            assert(mid.wf());
            assert forall|i: int| 0 <= i < mid.plan_map@.len() && i != at implies mid.keys()[i]
                != bound@ by {
                assert(mid.plan_map@[i].0.bound@ == mid.keys()[i]);
                assert(mid.plan_map@[at as int].0.bound@ == mid.keys()[at as int]);
            }
        }
        Ok(&mut self.plan_map[at].1)
    }
}

} // verus!
