//! From control rows to per-frame, per-part instructions.
use vstd::prelude::*;
use crate::frames::{plan_steps, step_of, step_wf, FramePlan, Instruction, Step};
use crate::gradient::{build_effect, effect_gradient, place, place_bulbs, stops_in_strip};
use crate::interpolate::{interpolate, interpolate_gradient};
use crate::records::{
    alpha_of, alpha_valid, collect_stops, color_of, colors_valid, controls_valid, find_color,
    stop_records_valid, stops_for, with_alpha, ColorRecord, ControlKind, ControlRecord, StopRecord,
};
use crate::types::{CompileError, Rgba};

verus! {

/// A part of the output: the physical part names whose rows feed it (its
/// lookup filter), its number of LEDs (one for a fibre), and its kind.
pub struct OutputPart {
    pub names: Vec<String>,
    pub len: usize,
    pub led: bool,
}

/// The mathematical content of an [`OutputPart`].
pub struct PartView {
    pub names: Seq<Seq<char>>,
    pub len: nat,
    pub led: bool,
}

pub open spec fn part_view(p: OutputPart) -> PartView {
    PartView { names: names_view(p.names@), len: p.len as nat, led: p.led }
}

pub open spec fn parts_view(ps: Seq<OutputPart>) -> Seq<PartView> {
    Seq::new(ps.len(), |i: int| part_view(ps[i]))
}

pub open spec fn names_view(v: Seq<String>) -> Seq<Seq<char>> {
    Seq::new(v.len(), |i: int| v[i]@)
}

/// The last control row whose part is one of `names`.
pub open spec fn last_control(rows: Seq<ControlRecord>, names: Seq<Seq<char>>) -> Option<ControlRecord>
    decreases rows.len(),
{
    if rows.len() == 0 {
        None
    } else if names.contains(rows.last().part_name@) {
        Some(rows.last())
    } else {
        last_control(rows.drop_last(), names)
    }
}

/// A strip of `len` LEDs with nothing to show.
pub open spec fn unlit(len: nat) -> Seq<Rgba> {
    Seq::new(len, |_i: int| Rgba::transparent())
}

/// What one frame, given by its control rows, asks of one output part.
/// The last matching row decides: none leaves the part unlit; NO_EFFECT
/// keeps the previous frame; a fibre shows the row's colour and alpha; an LED
/// strip shows its bulbs interpolated if the row has any, else the effect it
/// names, else nothing.
pub open spec fn part_step(
    colors: Seq<ColorRecord>,
    states: Seq<StopRecord>,
    bulbs: Seq<StopRecord>,
    rows: Seq<ControlRecord>,
    names: Seq<Seq<char>>,
    len: nat,
    led: bool,
) -> Result<Step, CompileError> {
    match last_control(rows, names) {
        None => Ok(Step::Show(unlit(len))),
        Some(c) => if c.kind == ControlKind::NoEffect {
            Ok(Step::Keep)
        } else if !led {
            Ok(Step::Show(seq![with_alpha(color_of(colors, c.color_id), alpha_of(c.alpha))]))
        } else {
            let bs = stops_for(bulbs, colors, c.id);
            if bs.len() > 0 {
                if stops_in_strip(bs, len as int) {
                    Ok(Step::Show(interpolate(place(bs, len))))
                } else {
                    Err(CompileError::PositionOutOfBounds)
                }
            } else if c.kind == ControlKind::Effect {
                match c.effect_id {
                    None => Err(CompileError::EffectNotFound),
                    Some(e) => {
                        let es = stops_for(states, colors, e);
                        if es.len() == 0 {
                            Err(CompileError::EffectNotFound)
                        } else if stops_in_strip(es, len as int) {
                            Ok(Step::Show(effect_gradient(es, len)))
                        } else {
                            Err(CompileError::PositionOutOfBounds)
                        }
                    },
                }
            } else {
                Ok(Step::Show(unlit(len)))
            }
        },
    }
}

fn contains_name(names: &Vec<String>, n: &String) -> (r: bool)
    ensures
        r == names_view(names@).contains(n@),
{
    let mut i: usize = 0;
    while i < names.len()
        invariant
            i <= names@.len(),
            forall|t: int| 0 <= t < i ==> names@[t]@ != n@,
        decreases names@.len() - i,
    {
        if names[i] == *n {
            assert(names_view(names@)[i as int] == n@);
            return true;
        }
        i = i + 1;
    }
    assert(!names_view(names@).contains(n@)) by {
        if names_view(names@).contains(n@) {
            let t = choose|t: int| 0 <= t < names_view(names@).len() && names_view(names@)[t] == n@;
            assert(names@[t]@ == n@);
        }
    }
    false
}

/// The index of the last row in `lo..hi` whose part is one of `names`.
fn find_control(rows: &Vec<ControlRecord>, lo: usize, hi: usize, names: &Vec<String>) -> (r: Option<usize>)
    requires
        lo <= hi <= rows@.len(),
    ensures
        match r {
            None => last_control(rows@.subrange(lo as int, hi as int), names_view(names@)) is None,
            Some(i) => lo <= i < hi && last_control(rows@.subrange(lo as int, hi as int), names_view(names@))
                == Some(rows@[i as int]),
        },
{
    let mut found: Option<usize> = None;
    let mut i: usize = lo;
    while i < hi
        invariant
            lo <= i <= hi <= rows@.len(),
            match found {
                None => last_control(rows@.subrange(lo as int, i as int), names_view(names@)) is None,
                Some(j) => lo <= j < i && last_control(rows@.subrange(lo as int, i as int), names_view(names@))
                    == Some(rows@[j as int]),
            },
        decreases hi - i,
    {
        proof {
            let s = rows@.subrange(lo as int, i + 1);
            assert(s.drop_last() =~= rows@.subrange(lo as int, i as int));
            assert(s.last() == rows@[i as int]);
        }
        if contains_name(names, &rows[i].part_name) {
            found = Some(i);
        }
        i = i + 1;
    }
    found
}

fn unlit_strip(len: usize) -> (r: Vec<Rgba>)
    ensures
        r@ == unlit(len as nat),
{
    let mut v: Vec<Rgba> = Vec::new();
    let mut k: usize = 0;
    while k < len
        invariant
            k <= len,
            v@ =~= unlit(k as nat),
        decreases len - k,
    {
        v.push(Rgba { r: 0, g: 0, b: 0, a: 0 });
        k = k + 1;
    }
    v
}

pub open spec fn records_valid(colors: Seq<ColorRecord>, states: Seq<StopRecord>, bulbs: Seq<StopRecord>, rows: Seq<ControlRecord>) -> bool {
    &&& colors_valid(colors)
    &&& stop_records_valid(states)
    &&& stop_records_valid(bulbs)
    &&& controls_valid(rows)
}

/// What the control rows `lo..hi` of one frame ask of one output part.
pub fn part_instruction(
    colors: &Vec<ColorRecord>,
    states: &Vec<StopRecord>,
    bulbs: &Vec<StopRecord>,
    rows: &Vec<ControlRecord>,
    lo: usize,
    hi: usize,
    part: &OutputPart,
) -> (r: Result<Instruction, CompileError>)
    requires
        lo <= hi <= rows@.len(),
        part.len <= i32::MAX,
        records_valid(colors@, states@, bulbs@, rows@),
    ensures
        match r {
            Ok(i) => part_step(colors@, states@, bulbs@, rows@.subrange(lo as int, hi as int),
                names_view(part.names@), part.len as nat, part.led) == Ok::<Step, CompileError>(step_of(i))
                && step_wf(step_of(i)),
            Err(e) => part_step(colors@, states@, bulbs@, rows@.subrange(lo as int, hi as int),
                names_view(part.names@), part.len as nat, part.led) == Err::<Step, CompileError>(e),
        },
{
    match find_control(rows, lo, hi, &part.names) {
        None => Ok(Instruction::Show(unlit_strip(part.len))),
        Some(ci) => {
            let c = &rows[ci];
            if c.kind == ControlKind::NoEffect {
                return Ok(Instruction::Keep);
            }
            if !part.led {
                let col = find_color(colors, c.color_id);
                let a: i32 = match c.alpha {
                    Some(x) => x,
                    None => 0,
                };
                assert(rows@[ci as int].alpha matches Some(x) ==> alpha_valid(x));
                let mut v: Vec<Rgba> = Vec::new();
                v.push(Rgba { r: col.r, g: col.g, b: col.b, a });
                assert(v@ =~= seq![with_alpha(color_of(colors@, c.color_id), alpha_of(c.alpha))]);
                return Ok(Instruction::Show(v));
            }
            let bs = collect_stops(bulbs, colors, c.id);
            if bs.len() > 0 {
                match place_bulbs(part.len, &bs) {
                    Err(e) => return Err(e),
                    Ok(sparse) => return Ok(Instruction::Show(interpolate_gradient(&sparse))),
                }
            }
            if c.kind == ControlKind::Effect {
                match c.effect_id {
                    None => Err(CompileError::EffectNotFound),
                    Some(e) => {
                        let es = collect_stops(states, colors, e);
                        if es.len() == 0 {
                            return Err(CompileError::EffectNotFound);
                        }
                        match build_effect(part.len, &es) {
                            Err(err) => Err(err),
                            Ok(v) => Ok(Instruction::Show(v)),
                        }
                    },
                }
            } else {
                Ok(Instruction::Show(unlit_strip(part.len)))
            }
        },
    }
}

/// The records of one dancer's show, as read from the store.
pub struct ShowRecords {
    pub colors: Vec<ColorRecord>,
    pub effect_states: Vec<StopRecord>,
    pub bulbs: Vec<StopRecord>,
    /// Control rows in order of frame time.
    pub controls: Vec<ControlRecord>,
}

impl ShowRecords {
    pub open spec fn valid(&self) -> bool {
        records_valid(self.colors@, self.effect_states@, self.bulbs@, self.controls@)
    }
}

pub open spec fn start_seq(rows: Seq<ControlRecord>) -> Seq<i32> {
    Seq::new(rows.len(), |i: int| rows[i].start)
}

/// The indices at which a new frame time begins.
pub open spec fn run_heads(s: Seq<i32>) -> Seq<int>
    decreases s.len(),
{
    if s.len() == 0 {
        Seq::empty()
    } else {
        let n = s.len() - 1;
        let r = run_heads(s.drop_last());
        if n == 0 || s[n - 1] != s[n] {
            r.push(n)
        } else {
            r
        }
    }
}

pub open spec fn heads_of(rows: Seq<ControlRecord>) -> Seq<int> {
    run_heads(start_seq(rows))
}

pub open spec fn heads_wf(h: Seq<int>, n: int) -> bool {
    &&& (n > 0 <==> h.len() > 0)
    &&& h.len() > 0 ==> h[0] == 0
    &&& forall|i: int, j: int| 0 <= i < j < h.len() ==> #[trigger] h[i] < #[trigger] h[j]
    &&& forall|k: int| 0 <= k < h.len() ==> 0 <= #[trigger] h[k] < n
}

pub open spec fn group_end(h: Seq<int>, k: int, n: int) -> int {
    if k + 1 < h.len() {
        h[k + 1]
    } else {
        n
    }
}

/// The control rows of the `k`-th frame: a maximal run of rows with one time.
pub open spec fn group_rows(rows: Seq<ControlRecord>, k: int) -> Seq<ControlRecord> {
    let h = heads_of(rows);
    rows.subrange(h[k], group_end(h, k, rows.len() as int))
}

/// Where each frame's rows begin, frames being runs of rows of equal time.
pub fn frame_heads(rows: &Vec<ControlRecord>) -> (r: Vec<usize>)
    ensures
        r@.len() == heads_of(rows@).len(),
        forall|k: int| 0 <= k < r@.len() ==> (#[trigger] r@[k]) as int == heads_of(rows@)[k],
        heads_wf(heads_of(rows@), rows@.len() as int),
{
    let ghost all = start_seq(rows@);
    let mut out: Vec<usize> = Vec::new();
    let mut i: usize = 0;
    while i < rows.len()
        invariant
            i <= rows@.len(),
            all == start_seq(rows@),
            out@.len() == run_heads(all.subrange(0, i as int)).len(),
            forall|k: int| 0 <= k < out@.len() ==> (#[trigger] out@[k]) as int == run_heads(all.subrange(0, i as int))[k],
            heads_wf(run_heads(all.subrange(0, i as int)), i as int),
        decreases rows@.len() - i,
    {
        let ghost s = all.subrange(0, i + 1);
        proof {
            assert(s.drop_last() =~= all.subrange(0, i as int));
        }
        if i == 0 || rows[i - 1].start != rows[i].start {
            out.push(i);
        }
        i = i + 1;
    }
    assert(all.subrange(0, i as int) =~= all);
    out
}

pub open spec fn fade_byte(f: bool) -> u8 {
    if f {
        1
    } else {
        0
    }
}

/// What frame `k` asks of output part `p`.
pub open spec fn frame_step(recs: ShowRecords, parts: Seq<PartView>, k: int, p: int) -> Result<Step, CompileError> {
    part_step(recs.colors@, recs.effect_states@, recs.bulbs@, group_rows(recs.controls@, k),
        parts[p].names, parts[p].len, parts[p].led)
}

pub open spec fn parts_fit(parts: Seq<PartView>) -> bool {
    forall|p: int| 0 <= p < parts.len() ==> (#[trigger] parts[p]).len <= i32::MAX
}

/// Every frame's instruction for every part, where all of them succeed.
pub open spec fn all_steps_ok(recs: ShowRecords, parts: Seq<PartView>) -> bool {
    forall|k: int, p: int| 0 <= k < heads_of(recs.controls@).len() && 0 <= p < parts.len()
        ==> #[trigger] frame_step(recs, parts, k, p) is Ok
}

pub open spec fn show_steps(recs: ShowRecords, parts: Seq<PartView>) -> Seq<Seq<Step>> {
    Seq::new(heads_of(recs.controls@).len(), |k: int| Seq::new(parts.len(), |p: int| frame_step(recs, parts, k, p)->Ok_0))
}

/// Groups the control rows into frames and resolves each part's instruction
/// in each frame.
pub fn plan_frames(recs: &ShowRecords, parts: &Vec<OutputPart>) -> (r: Result<Vec<FramePlan>, CompileError>)
    requires
        recs.valid(),
        parts_fit(parts_view(parts@)),
    ensures
        match r {
            Ok(plans) => {
                &&& all_steps_ok(*recs, parts_view(parts@))
                &&& plan_steps(plans@) == show_steps(*recs, parts_view(parts@))
                &&& plans@.len() == heads_of(recs.controls@).len()
                &&& forall|k: int| 0 <= k < plans@.len() ==> {
                    &&& (#[trigger] plans@[k]).start == recs.controls@[heads_of(recs.controls@)[k]].start as u32
                    &&& plans@[k].fade == fade_byte(recs.controls@[heads_of(recs.controls@)[k]].fade)
                    &&& plans@[k].parts@.len() == parts@.len()
                    &&& forall|p: int| 0 <= p < parts@.len() ==> step_wf(#[trigger] step_of(plans@[k].parts@[p]))
                }
            },
            Err(e) => exists|k: int, p: int|
                0 <= k < heads_of(recs.controls@).len() && 0 <= p < parts@.len()
                    && #[trigger] frame_step(*recs, parts_view(parts@), k, p) == Err::<Step, CompileError>(e),
        },
{
    let rows = &recs.controls;
    let heads = frame_heads(rows);
    let ghost h = heads_of(rows@);
    let n = rows.len();
    let mut plans: Vec<FramePlan> = Vec::new();
    let mut k: usize = 0;
    while k < heads.len()
        invariant
            k <= heads@.len(),
            recs.valid(),
            parts_fit(parts_view(parts@)),
            *rows == recs.controls,
            n == rows@.len(),
            h == heads_of(rows@),
            heads@.len() == h.len(),
            forall|j: int| 0 <= j < heads@.len() ==> (#[trigger] heads@[j]) as int == h[j],
            heads_wf(h, n as int),
            plans@.len() == k,
            forall|j: int| 0 <= j < k ==> {
                &&& (#[trigger] plans@[j]).start == rows@[h[j]].start as u32
                &&& plans@[j].fade == fade_byte(rows@[h[j]].fade)
                &&& plans@[j].parts@.len() == parts@.len()
                &&& forall|p: int| 0 <= p < parts@.len() ==> {
                    &&& frame_step(*recs, parts_view(parts@), j, p) == Ok::<Step, CompileError>(step_of(#[trigger] plans@[j].parts@[p]))
                    &&& step_wf(step_of(plans@[j].parts@[p]))
                }
            },
        decreases heads@.len() - k,
    {
        let lo = heads[k];
        let hi = if k + 1 < heads.len() {
            heads[k + 1]
        } else {
            n
        };
        assert(lo as int == h[k as int]);
        assert(hi as int == group_end(h, k as int, n as int));
        assert(lo <= hi) by {
            if k + 1 < heads@.len() {
                assert(h[k as int] < h[k + 1]);
            }
        }
        let mut ins: Vec<Instruction> = Vec::new();
        let mut p: usize = 0;
        while p < parts.len()
            invariant
                p <= parts@.len(),
                recs.valid(),
                parts_fit(parts_view(parts@)),
                *rows == recs.controls,
                lo <= hi <= n == rows@.len(),
                h == heads_of(rows@),
                k < h.len(),
                lo as int == h[k as int],
                hi as int == group_end(h, k as int, n as int),
                ins@.len() == p,
                forall|q: int| 0 <= q < p ==> {
                    &&& frame_step(*recs, parts_view(parts@), k as int, q) == Ok::<Step, CompileError>(step_of(#[trigger] ins@[q]))
                    &&& step_wf(step_of(ins@[q]))
                },
            decreases parts@.len() - p,
        {
            assert(parts_view(parts@)[p as int].len <= i32::MAX);
            let r = part_instruction(&recs.colors, &recs.effect_states, &recs.bulbs, rows, lo, hi, &parts[p]);
            assert(group_rows(rows@, k as int) == rows@.subrange(lo as int, hi as int));
            match r {
                Err(e) => {
                    assert(frame_step(*recs, parts_view(parts@), k as int, p as int) == Err::<Step, CompileError>(e));
                    return Err(e);
                },
                Ok(i) => {
                    ins.push(i);
                },
            }
            p = p + 1;
        }
        plans.push(FramePlan { start: rows[lo].start as u32, fade: if rows[lo].fade { 1 } else { 0 }, parts: ins });
        k = k + 1;
    }
    proof {
        assert forall|k: int, p: int| 0 <= k < h.len() && 0 <= p < parts@.len() implies #[trigger] frame_step(*recs, parts_view(parts@), k, p) is Ok by {
            assert(plans@[k].parts@.len() == parts@.len());
            assert(frame_step(*recs, parts_view(parts@), k, p) == Ok::<Step, CompileError>(step_of(plans@[k].parts@[p])));
        }
        assert forall|k: int| 0 <= k < plans@.len() implies #[trigger] plan_steps(plans@)[k] == show_steps(*recs, parts_view(parts@))[k] by {
            assert(plan_steps(plans@)[k] =~= show_steps(*recs, parts_view(parts@))[k]);
        }
        assert(plan_steps(plans@) =~= show_steps(*recs, parts_view(parts@)));
    }
    Ok(plans)
}

} // verus!
