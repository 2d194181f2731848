//! Resolving frames in time order, with carry-forward of kept parts.
use vstd::prelude::*;
use crate::color::{alpha, composite};
use crate::types::{Color, CompileError, Rgba};

verus! {

/// What one frame asks of one part.
pub enum Instruction {
    /// Keep the colours the part had in the previous frame.
    Keep,
    /// Show these colours, each dimmed by its alpha.
    Show(Vec<Rgba>),
}

/// The mathematical content of an [`Instruction`].
pub enum Step {
    Keep,
    Show(Seq<Rgba>),
}

pub open spec fn step_of(i: Instruction) -> Step {
    match i {
        Instruction::Keep => Step::Keep,
        Instruction::Show(v) => Step::Show(v@),
    }
}

pub open spec fn all_wf(v: Seq<Rgba>) -> bool {
    forall|i: int| 0 <= i < v.len() ==> (#[trigger] v[i]).wf()
}

pub open spec fn step_wf(s: Step) -> bool {
    match s {
        Step::Keep => true,
        Step::Show(v) => all_wf(v),
    }
}

/// One frame before resolution: its time, its fade flag and an instruction
/// for each part, parts in channel order.
pub struct FramePlan {
    pub start: u32,
    pub fade: u8,
    pub parts: Vec<Instruction>,
}

/// One resolved frame: a colour array for each part, parts in channel order.
pub struct CompiledFrame {
    pub start: u32,
    pub fade: u8,
    pub parts: Vec<Vec<Color>>,
    pub checksum: u32,
}

pub open spec fn plan_steps(plans: Seq<FramePlan>) -> Seq<Seq<Step>> {
    Seq::new(plans.len(), |k: int| Seq::new(plans[k].parts@.len(), |p: int| step_of(plans[k].parts@[p])))
}

/// The colours of part `p` in frame `k`: shown colours are dimmed by their
/// alpha; a kept part repeats frame `k - 1`, and has none in the first frame.
pub open spec fn resolved(steps: Seq<Seq<Step>>, k: int, p: int) -> Option<Seq<Color>>
    decreases k,
{
    if k < 0 {
        None
    } else {
        match steps[k][p] {
            Step::Keep => if k == 0 {
                None
            } else {
                resolved(steps, k - 1, p)
            },
            Step::Show(v) => Some(v.map_values(|c: Rgba| composite(c))),
        }
    }
}

/// Every frame lists the same number of parts, and every shown colour is valid.
pub open spec fn plans_wf(steps: Seq<Seq<Step>>, nparts: int) -> bool {
    forall|k: int| 0 <= k < steps.len() ==> {
        &&& (#[trigger] steps[k]).len() == nparts
        &&& forall|p: int| 0 <= p < nparts ==> step_wf(#[trigger] steps[k][p])
    }
}

/// Whether some part keeps its colour in the first frame.
pub open spec fn first_frame_keeps(steps: Seq<Seq<Step>>, nparts: int) -> bool {
    steps.len() > 0 && exists|p: int| 0 <= p < nparts && #[trigger] steps[0][p] is Keep
}

/// A kept part in frame `k` shows exactly what it showed in frame `k - 1`;
/// a part kept in the first frame has nothing to show.
pub proof fn lemma_keep_repeats_previous(steps: Seq<Seq<Step>>, k: int, p: int)
    requires
        0 <= k < steps.len(),
        steps[k][p] is Keep,
    ensures
        k > 0 ==> resolved(steps, k, p) == resolved(steps, k - 1, p),
        k == 0 ==> resolved(steps, k, p) is None,
{
}

fn dim_all(v: &Vec<Rgba>) -> (r: Vec<Color>)
    requires
        forall|i: int| 0 <= i < v@.len() ==> (#[trigger] v@[i]).wf(),
    ensures
        r@ == v@.map_values(|c: Rgba| composite(c)),
        forall|i: int| 0 <= i < r@.len() ==> (#[trigger] r@[i]).wf(),
{
    let mut r: Vec<Color> = Vec::new();
    let mut i: usize = 0;
    while i < v.len()
        invariant
            i <= v@.len(),
            forall|t: int| 0 <= t < v@.len() ==> (#[trigger] v@[t]).wf(),
            r@ =~= v@.subrange(0, i as int).map_values(|c: Rgba| composite(c)),
            forall|t: int| 0 <= t < r@.len() ==> (#[trigger] r@[t]).wf(),
        decreases v@.len() - i,
    {
        r.push(alpha(&v[i]));
        i = i + 1;
    }
    assert(v@.subrange(0, i as int) =~= v@);
    r
}

fn copy_colors(v: &Vec<Color>) -> (r: Vec<Color>)
    ensures
        r@ == v@,
{
    let mut r: Vec<Color> = Vec::new();
    let mut i: usize = 0;
    while i < v.len()
        invariant
            i <= v@.len(),
            r@ =~= v@.subrange(0, i as int),
        decreases v@.len() - i,
    {
        r.push(v[i]);
        i = i + 1;
    }
    assert(v@.subrange(0, i as int) =~= v@);
    r
}

/// Resolves the frames in time order, threading each part's previous colours
/// from one frame to the next. Fails when a part keeps its colour in the
/// first frame.
pub fn resolve_frames(plans: &Vec<FramePlan>, nparts: usize) -> (r: Result<Vec<CompiledFrame>, CompileError>)
    requires
        plans_wf(plan_steps(plans@), nparts as int),
    ensures
        match r {
            Ok(frames) => {
                &&& !first_frame_keeps(plan_steps(plans@), nparts as int)
                &&& frames@.len() == plans@.len()
                &&& forall|k: int| 0 <= k < frames@.len() ==> {
                    &&& (#[trigger] frames@[k]).start == plans@[k].start
                    &&& frames@[k].fade == plans@[k].fade
                    &&& frames@[k].checksum == 0
                    &&& frames@[k].parts@.len() == nparts
                    &&& forall|p: int| 0 <= p < nparts ==>
                        Some((#[trigger] frames@[k].parts@[p])@) == resolved(plan_steps(plans@), k, p)
                    &&& forall|p: int, i: int| 0 <= p < nparts && 0 <= i < frames@[k].parts@[p]@.len() ==>
                        (#[trigger] frames@[k].parts@[p]@[i]).wf()
                }
            },
            Err(e) => first_frame_keeps(plan_steps(plans@), nparts as int) && e == CompileError::FirstFrameNoEffect,
        },
{
    let ghost steps = plan_steps(plans@);
    let mut frames: Vec<CompiledFrame> = Vec::new();
    let mut k: usize = 0;
    while k < plans.len()
        invariant
            k <= plans@.len(),
            steps == plan_steps(plans@),
            plans_wf(steps, nparts as int),
            k > 0 ==> !first_frame_keeps(steps, nparts as int),
            frames@.len() == k,
            forall|j: int| 0 <= j < k ==> {
                &&& (#[trigger] frames@[j]).start == plans@[j].start
                &&& frames@[j].fade == plans@[j].fade
                &&& frames@[j].checksum == 0
                &&& frames@[j].parts@.len() == nparts
                &&& forall|p: int| 0 <= p < nparts ==>
                    Some((#[trigger] frames@[j].parts@[p])@) == resolved(steps, j, p)
                &&& forall|p: int, i: int| 0 <= p < nparts && 0 <= i < frames@[j].parts@[p]@.len() ==>
                    (#[trigger] frames@[j].parts@[p]@[i]).wf()
            },
        decreases plans@.len() - k,
    {
        let plan = &plans[k];
        assert(steps[k as int].len() == nparts);
        let mut parts: Vec<Vec<Color>> = Vec::new();
        let mut p: usize = 0;
        while p < nparts
            invariant
                k < plans@.len(),
                *plan == plans@[k as int],
                p <= nparts,
                steps == plan_steps(plans@),
                plans_wf(steps, nparts as int),
                steps[k as int].len() == nparts,
                k > 0 ==> !first_frame_keeps(steps, nparts as int),
                k == 0 ==> forall|q: int| 0 <= q < p ==> !(#[trigger] steps[0][q] is Keep),
                frames@.len() == k,
                forall|j: int| 0 <= j < k ==> {
                    &&& (#[trigger] frames@[j]).parts@.len() == nparts
                    &&& forall|q: int| 0 <= q < nparts ==>
                        Some((#[trigger] frames@[j].parts@[q])@) == resolved(steps, j, q)
                    &&& forall|q: int, i: int| 0 <= q < nparts && 0 <= i < frames@[j].parts@[q]@.len() ==>
                        (#[trigger] frames@[j].parts@[q]@[i]).wf()
                },
                parts@.len() == p,
                forall|q: int| 0 <= q < p ==> Some((#[trigger] parts@[q])@) == resolved(steps, k as int, q),
                forall|q: int, i: int| 0 <= q < p && 0 <= i < parts@[q]@.len() ==> (#[trigger] parts@[q]@[i]).wf(),
            decreases nparts - p,
        {
            assert(step_wf(steps[k as int][p as int]));
            assert(steps[k as int][p as int] == step_of(plan.parts@[p as int]));
            match &plan.parts[p] {
                Instruction::Keep => {
                    if k == 0 {
                        assert(steps[0][p as int] is Keep);
                        return Err(CompileError::FirstFrameNoEffect);
                    }
                    let prev = copy_colors(&frames[k - 1].parts[p]);
                    assert(frames@[k - 1].parts@[p as int]@ == prev@);
                    parts.push(prev);
                },
                Instruction::Show(v) => {
                    assert(step_of(plan.parts@[p as int]) == Step::Show(v@));
                    assert(steps[k as int][p as int] == Step::Show(v@));
                    parts.push(dim_all(v));
                },
            }
            p = p + 1;
        }
        frames.push(CompiledFrame { start: plan.start, fade: plan.fade, parts, checksum: 0 });
        proof {
            if k == 0 {
                assert(!first_frame_keeps(steps, nparts as int));
            }
        }
        k = k + 1;
    }
    Ok(frames)
}

} // verus!
