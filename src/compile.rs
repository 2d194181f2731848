//! The two exports of a show: `frame.dat` and `control.dat`.
use vstd::prelude::*;
use crate::channel_table::ChannelTable;
use crate::control::{control_dat_bytes, encode_control_dat, header_fits, is_frame_list, sorted_starts};
use crate::frames::{first_frame_keeps, plan_steps, resolve_frames, resolved, CompiledFrame, Step};
use crate::gradient::{lemma_paint_len, lemma_place_len, seed_of};
use crate::plan::last_control;
use crate::records::stops_for;
use crate::order::{channel_order, is_stable_order, name_keys, stable_sorted};
use crate::plan::{
    all_steps_ok, fade_byte, frame_step, heads_of, names_view, parts_fit, parts_view, plan_frames, show_steps,
    OutputPart, PartView, ShowRecords,
};
use crate::types::{CompileError, GetControlDatQuery, LEDPart};
use crate::wire::{colors_wf, encode_frame_dat, frame_dat_bytes, frame_records, frame_wf, parts_bytes, FrameRecord};

verus! {

/// The frames a compile produces, as they go on the wire.
pub open spec fn show_frames(recs: ShowRecords, parts: Seq<PartView>) -> Seq<FrameRecord> {
    let h = heads_of(recs.controls@);
    let steps = show_steps(recs, parts);
    Seq::new(h.len(), |k: int| FrameRecord {
        start: recs.controls@[h[k]].start as u32,
        fade: fade_byte(recs.controls@[h[k]].fade),
        payload: parts_bytes(Seq::new(parts.len(), |p: int| resolved(steps, k, p)->0)),
        checksum: 0,
    })
}

/// Compiles the records into resolved frames, one per distinct run of frame
/// times, each with the colours of every output part in the given order.
pub fn compile_frames(recs: &ShowRecords, parts: &Vec<OutputPart>) -> (r: Result<Vec<CompiledFrame>, CompileError>)
    requires
        recs.valid(),
        parts_fit(parts_view(parts@)),
    ensures
        match r {
            Ok(frames) => {
                &&& all_steps_ok(*recs, parts_view(parts@))
                &&& !first_frame_keeps(show_steps(*recs, parts_view(parts@)), parts@.len() as int)
                &&& frame_records(frames@) == show_frames(*recs, parts_view(parts@))
                &&& forall|k: int| 0 <= k < frames@.len() ==> frame_wf(#[trigger] frames@[k])
            },
            Err(e) => {
                ||| exists|k: int, p: int|
                    0 <= k < heads_of(recs.controls@).len() && 0 <= p < parts@.len()
                        && #[trigger] frame_step(*recs, parts_view(parts@), k, p) == Err::<crate::frames::Step, CompileError>(e)
                ||| all_steps_ok(*recs, parts_view(parts@))
                    && first_frame_keeps(show_steps(*recs, parts_view(parts@)), parts@.len() as int)
                    && e == CompileError::FirstFrameNoEffect
            },
        },
{
    let plans = match plan_frames(recs, parts) {
        Err(e) => return Err(e),
        Ok(p) => p,
    };
    let ghost steps = show_steps(*recs, parts_view(parts@));
    proof {
        assert forall|k: int| 0 <= k < steps.len() implies {
            &&& (#[trigger] steps[k]).len() == parts@.len()
            &&& forall|p: int| 0 <= p < parts@.len() ==> crate::frames::step_wf(#[trigger] steps[k][p])
        } by {
            assert forall|p: int| 0 <= p < parts@.len() implies crate::frames::step_wf(#[trigger] steps[k][p]) by {
                assert(plan_steps(plans@)[k][p] == crate::frames::step_of(plans@[k].parts@[p]));
            }
        }
    }
    let frames = resolve_frames(&plans, parts.len())?;
    proof {
        let np = parts@.len() as int;
        assert forall|k: int| 0 <= k < frames@.len() implies #[trigger] frame_records(frames@)[k] == show_frames(*recs, parts_view(parts@))[k] by {
            let f = frames@[k];
            assert(Seq::new(f.parts@.len(), |p: int| f.parts@[p]@) =~= Seq::new(parts_view(parts@).len(), |p: int| resolved(steps, k, p)->0)) by {
                assert forall|p: int| 0 <= p < np implies #[trigger] f.parts@[p]@ == resolved(steps, k, p)->0 by {
                    assert(Some(f.parts@[p]@) == resolved(plan_steps(plans@), k, p));
                }
            }
        }
        assert(frame_records(frames@) =~= show_frames(*recs, parts_view(parts@)));
        assert forall|k: int| 0 <= k < frames@.len() implies frame_wf(#[trigger] frames@[k]) by {
            assert forall|p: int| 0 <= p < frames@[k].parts@.len() implies colors_wf((#[trigger] frames@[k].parts@[p])@) by {
                assert forall|i: int| 0 <= i < frames@[k].parts@[p]@.len() implies (#[trigger] frames@[k].parts@[p]@[i]).wf() by {
                }
            }
        }
    }
    Ok(frames)
}

/// The lookup filter of a logical LED strip: the physical parts its last merge
/// declaration lists, or the strip alone.
pub open spec fn merge_filter(merges: Seq<(String, Vec<String>)>, name: Seq<char>) -> Seq<Seq<char>>
    decreases merges.len(),
{
    if merges.len() == 0 {
        seq![name]
    } else if merges.last().0@ == name {
        names_view(merges.last().1@)
    } else {
        merge_filter(merges.drop_last(), name)
    }
}

pub open spec fn of_names(q: GetControlDatQuery) -> Seq<String> {
    Seq::new(q.of_parts@.len(), |i: int| q.of_parts@[i].0)
}

pub open spec fn led_names(q: GetControlDatQuery) -> Seq<String> {
    Seq::new(q.led_parts@.len(), |i: int| q.led_parts@[i].0)
}

/// Every LED strip has a length that is not negative.
pub open spec fn led_lens_ok(q: GetControlDatQuery) -> bool {
    forall|i: int| 0 <= i < q.led_parts@.len() ==> (#[trigger] q.led_parts@[i]).1.len >= 0
}

/// The output parts of a request: the fibre parts, then the LED strips, each
/// group in channel order.
pub open spec fn requested_parts(table: Seq<(Seq<char>, i32)>, q: GetControlDatQuery) -> Seq<PartView> {
    let oo = stable_sorted(name_keys(table, of_names(q)));
    let lo = stable_sorted(name_keys(table, led_names(q)));
    Seq::new(oo.len(), |i: int| PartView { names: seq![q.of_parts@[oo[i] as int].0@], len: 1, led: false })
        + Seq::new(lo.len(), |i: int| PartView {
            names: merge_filter(q.led_merge@, q.led_parts@[lo[i] as int].0@),
            len: q.led_parts@[lo[i] as int].1.len as nat,
            led: true,
        })
}

fn clone_names(v: &Vec<String>) -> (r: Vec<String>)
    ensures
        names_view(r@) == names_view(v@),
{
    let mut out: Vec<String> = Vec::new();
    let mut i: usize = 0;
    while i < v.len()
        invariant
            i <= v@.len(),
            out@.len() == i,
            forall|t: int| 0 <= t < i ==> (#[trigger] out@[t])@ == v@[t]@,
        decreases v@.len() - i,
    {
        out.push(v[i].clone());
        i = i + 1;
    }
    assert(names_view(out@) =~= names_view(v@));
    out
}

fn lookup_filter(merges: &Vec<(String, Vec<String>)>, name: &String) -> (r: Vec<String>)
    ensures
        names_view(r@) == merge_filter(merges@, name@),
{
    let mut found: Option<usize> = None;
    let mut i: usize = 0;
    while i < merges.len()
        invariant
            i <= merges@.len(),
            match found {
                None => merge_filter(merges@.subrange(0, i as int), name@) == seq![name@],
                Some(j) => j < i && merge_filter(merges@.subrange(0, i as int), name@) == names_view(merges@[j as int].1@),
            },
        decreases merges@.len() - i,
    {
        proof {
            let s = merges@.subrange(0, i + 1);
            assert(s.drop_last() =~= merges@.subrange(0, i as int));
            assert(s.last() == merges@[i as int]);
        }
        if merges[i].0 == *name {
            found = Some(i);
        }
        i = i + 1;
    }
    assert(merges@.subrange(0, i as int) =~= merges@);
    match found {
        Some(j) => clone_names(&merges[j].1),
        None => {
            let mut v: Vec<String> = Vec::new();
            v.push(name.clone());
            assert(names_view(v@) =~= seq![name@]);
            v
        },
    }
}

/// The output parts of a request, fibres then LED strips, each in channel
/// order; fails when an LED strip has a negative length.
pub fn output_parts(table: &ChannelTable, q: &GetControlDatQuery) -> (r: Result<Vec<OutputPart>, CompileError>)
    ensures
        match r {
            Ok(parts) => led_lens_ok(*q) && parts_view(parts@) == requested_parts(table@, *q)
                && parts_fit(parts_view(parts@)),
            Err(e) => !led_lens_ok(*q) && e == CompileError::RangeViolation,
        },
{
    let mut i: usize = 0;
    while i < q.led_parts.len()
        invariant
            i <= q.led_parts@.len(),
            forall|t: int| 0 <= t < i ==> (#[trigger] q.led_parts@[t]).1.len >= 0,
        decreases q.led_parts@.len() - i,
    {
        if q.led_parts[i].1.len < 0 {
            return Err(CompileError::RangeViolation);
        }
        i = i + 1;
    }
    let mut ofn: Vec<String> = Vec::new();
    let mut j: usize = 0;
    while j < q.of_parts.len()
        invariant
            j <= q.of_parts@.len(),
            ofn@.len() == j,
            forall|t: int| 0 <= t < j ==> #[trigger] ofn@[t] == q.of_parts@[t].0,
        decreases q.of_parts@.len() - j,
    {
        ofn.push(q.of_parts[j].0.clone());
        j = j + 1;
    }
    assert(ofn@ =~= of_names(*q));
    let mut ledn: Vec<String> = Vec::new();
    let mut j: usize = 0;
    while j < q.led_parts.len()
        invariant
            j <= q.led_parts@.len(),
            ledn@.len() == j,
            forall|t: int| 0 <= t < j ==> #[trigger] ledn@[t] == q.led_parts@[t].0,
        decreases q.led_parts@.len() - j,
    {
        ledn.push(q.led_parts[j].0.clone());
        j = j + 1;
    }
    assert(ledn@ =~= led_names(*q));
    let oo = channel_order(table, &ofn);
    let lo = channel_order(table, &ledn);
    let ghost want = requested_parts(table@, *q);
    let mut parts: Vec<OutputPart> = Vec::new();
    let mut k: usize = 0;
    while k < oo.len()
        invariant
            k <= oo@.len(),
            is_stable_order(name_keys(table@, of_names(*q)), oo@),
            oo@ == stable_sorted(name_keys(table@, of_names(*q))),
            lo@ == stable_sorted(name_keys(table@, led_names(*q))),
            ofn@ == of_names(*q),
            want == requested_parts(table@, *q),
            parts@.len() == k,
            forall|t: int| 0 <= t < k ==> crate::plan::part_view(#[trigger] parts@[t]) == want[t],
            forall|t: int| 0 <= t < k ==> (#[trigger] parts@[t]).len <= i32::MAX,
        decreases oo@.len() - k,
    {
        let idx = oo[k];
        let mut names: Vec<String> = Vec::new();
        names.push(ofn[idx].clone());
        assert(names_view(names@) =~= seq![q.of_parts@[idx as int].0@]);
        parts.push(OutputPart { names, len: 1, led: false });
        k = k + 1;
    }
    let mut k: usize = 0;
    while k < lo.len()
        invariant
            k <= lo@.len(),
            is_stable_order(name_keys(table@, led_names(*q)), lo@),
            oo@ == stable_sorted(name_keys(table@, of_names(*q))),
            lo@ == stable_sorted(name_keys(table@, led_names(*q))),
            ledn@ == led_names(*q),
            led_lens_ok(*q),
            want == requested_parts(table@, *q),
            parts@.len() == oo@.len() + k,
            forall|t: int| 0 <= t < oo@.len() + k ==> crate::plan::part_view(#[trigger] parts@[t]) == want[t],
            forall|t: int| 0 <= t < oo@.len() + k ==> (#[trigger] parts@[t]).len <= i32::MAX,
        decreases lo@.len() - k,
    {
        let idx = lo[k];
        let names = lookup_filter(&q.led_merge, &ledn[idx]);
        let part: LEDPart = q.led_parts[idx].1;
        assert(part.len >= 0);
        parts.push(OutputPart { names, len: part.len as usize, led: true });
        k = k + 1;
    }
    assert(parts_view(parts@) =~= want);
    Ok(parts)
}

/// Compiles one dancer's show into `frame.dat`: the version, then every frame
/// in time order with its fade flag, the GRB colours of the requested fibre
/// parts and LED strips in channel order, and a zero checksum.
pub fn frame_dat(table: &ChannelTable, q: &GetControlDatQuery, recs: &ShowRecords) -> (r: Result<Vec<u8>, CompileError>)
    requires
        recs.valid(),
    ensures
        match r {
            Ok(b) => {
                let parts = requested_parts(table@, *q);
                &&& led_lens_ok(*q)
                &&& all_steps_ok(*recs, parts)
                &&& !first_frame_keeps(show_steps(*recs, parts), parts.len() as int)
                &&& b@ == frame_dat_bytes(show_frames(*recs, parts))
            },
            Err(e) => {
                let parts = requested_parts(table@, *q);
                ||| !led_lens_ok(*q) && e == CompileError::RangeViolation
                ||| led_lens_ok(*q) && exists|k: int, p: int|
                    0 <= k < heads_of(recs.controls@).len() && 0 <= p < parts.len()
                        && #[trigger] frame_step(*recs, parts, k, p) == Err::<crate::frames::Step, CompileError>(e)
                ||| led_lens_ok(*q) && all_steps_ok(*recs, parts)
                    && first_frame_keeps(show_steps(*recs, parts), parts.len() as int)
                    && e == CompileError::FirstFrameNoEffect
            },
        },
{
    let parts = output_parts(table, q)?;
    let frames = compile_frames(recs, &parts)?;
    Ok(encode_frame_dat(&frames))
}

/// The LED strip lengths of a request in channel order.
pub open spec fn led_lens_in_order(table: Seq<(Seq<char>, i32)>, q: GetControlDatQuery) -> Seq<i32> {
    let lo = stable_sorted(name_keys(table, led_names(q)));
    Seq::new(lo.len(), |i: int| q.led_parts@[lo[i] as int].1.len)
}

/// Builds `control.dat` for a request: the version, the fibre and strip
/// counts, each strip's length in channel order, then the number of distinct
/// frame times and those times in ascending order.
pub fn control_dat(table: &ChannelTable, q: &GetControlDatQuery, starts: &Vec<u32>) -> (r: Result<Vec<u8>, CompileError>)
    ensures
        exists|f: Seq<u32>| {
            let lens = led_lens_in_order(table@, *q);
            let fits = header_fits(q.of_parts@.len() as int, lens) && f.len() <= u32::MAX;
            &&& #[trigger] is_frame_list(starts@, f)
            &&& match r {
                Ok(b) => fits && b@ == control_dat_bytes(q.of_parts@.len() as int, lens, f),
                Err(e) => !fits && e == CompileError::RangeViolation,
            }
        },
{
    let mut ledn: Vec<String> = Vec::new();
    let mut j: usize = 0;
    while j < q.led_parts.len()
        invariant
            j <= q.led_parts@.len(),
            ledn@.len() == j,
            forall|t: int| 0 <= t < j ==> #[trigger] ledn@[t] == q.led_parts@[t].0,
        decreases q.led_parts@.len() - j,
    {
        ledn.push(q.led_parts[j].0.clone());
        j = j + 1;
    }
    assert(ledn@ =~= led_names(*q));
    let lo = channel_order(table, &ledn);
    let mut lens: Vec<i32> = Vec::new();
    let mut k: usize = 0;
    while k < lo.len()
        invariant
            k <= lo@.len(),
            is_stable_order(name_keys(table@, led_names(*q)), lo@),
            lo@ == stable_sorted(name_keys(table@, led_names(*q))),
            lens@.len() == k,
            forall|t: int| 0 <= t < k ==> #[trigger] lens@[t] == q.led_parts@[lo@[t] as int].1.len,
        decreases lo@.len() - k,
    {
        lens.push(q.led_parts[lo[k]].1.len);
        k = k + 1;
    }
    assert(lens@ =~= led_lens_in_order(table@, *q));
    let frames = sorted_starts(starts);
    let r = encode_control_dat(q.of_parts.len(), &lens, &frames);
    assert(is_frame_list(starts@, frames@));
    r
}

proof fn lemma_led_step_len(recs: ShowRecords, parts: Seq<PartView>, k: int, p: int)
    requires
        0 <= p < parts.len(),
        parts[p].led,
        frame_step(recs, parts, k, p) matches Ok(Step::Show(v)),
    ensures
        frame_step(recs, parts, k, p)->Ok_0->Show_0.len() == parts[p].len,
{
    let len = parts[p].len;
    let rows = crate::plan::group_rows(recs.controls@, k);
    match last_control(rows, parts[p].names) {
        None => {},
        Some(c) => {
            let bs = stops_for(recs.bulbs@, recs.colors@, c.id);
            if bs.len() > 0 {
                lemma_place_len(bs, len);
            } else if c.effect_id is Some {
                let es = stops_for(recs.effect_states@, recs.colors@, c.effect_id->0);
                if es.len() > 0 && crate::gradient::stops_in_strip(es, len as int) {
                    lemma_paint_len(es, seed_of(es), len);
                }
            }
        },
    }
}

proof fn lemma_led_resolved_len(recs: ShowRecords, parts: Seq<PartView>, k: int, p: int)
    requires
        all_steps_ok(recs, parts),
        !first_frame_keeps(show_steps(recs, parts), parts.len() as int),
        0 <= k < heads_of(recs.controls@).len(),
        0 <= p < parts.len(),
        parts[p].led,
    ensures
        resolved(show_steps(recs, parts), k, p) is Some,
        resolved(show_steps(recs, parts), k, p)->0.len() == parts[p].len,
    decreases k,
{
    let steps = show_steps(recs, parts);
    assert(frame_step(recs, parts, k, p) is Ok);
    assert(steps[k][p] == frame_step(recs, parts, k, p)->Ok_0);
    match steps[k][p] {
        Step::Keep => {
            if k == 0 {
                assert(steps[0][p] is Keep);
                assert(first_frame_keeps(steps, parts.len() as int));
            } else {
                lemma_led_resolved_len(recs, parts, k - 1, p);
            }
        },
        Step::Show(v) => {
            lemma_led_step_len(recs, parts, k, p);
        },
    }
}

/// Merged LED parts: a request yields exactly one output per fibre part and
/// per logical LED strip, the strip's rows coming from all the physical parts
/// of its lookup filter; in every compiled frame that strip's colour array
/// has the strip's declared length.
pub proof fn lemma_merged_strip_one_output(table: Seq<(Seq<char>, i32)>, q: GetControlDatQuery, recs: ShowRecords, k: int, i: int)
    requires
        led_lens_ok(q),
        all_steps_ok(recs, requested_parts(table, q)),
        !first_frame_keeps(show_steps(recs, requested_parts(table, q)), requested_parts(table, q).len() as int),
        0 <= k < heads_of(recs.controls@).len(),
        0 <= i < q.led_parts@.len(),
    ensures
        ({
            let parts = requested_parts(table, q);
            let lo = stable_sorted(name_keys(table, led_names(q)));
            let p = q.of_parts@.len() + i;
            &&& parts.len() == q.of_parts@.len() + q.led_parts@.len()
            &&& parts[p].led
            &&& parts[p].names == merge_filter(q.led_merge@, q.led_parts@[lo[i] as int].0@)
            &&& resolved(show_steps(recs, parts), k, p) is Some
            &&& resolved(show_steps(recs, parts), k, p)->0.len() == q.led_parts@[lo[i] as int].1.len
        }),
{
    let parts = requested_parts(table, q);
    let oo = stable_sorted(name_keys(table, of_names(q)));
    let lo = stable_sorted(name_keys(table, led_names(q)));
    crate::order::lemma_stable_sorted_len(name_keys(table, of_names(q)));
    crate::order::lemma_stable_sorted_len(name_keys(table, led_names(q)));
    crate::order::lemma_stable_sorted_in_range(name_keys(table, led_names(q)));
    let p = q.of_parts@.len() + i;
    assert(parts[p] == PartView {
        names: merge_filter(q.led_merge@, q.led_parts@[lo[i] as int].0@),
        len: q.led_parts@[lo[i] as int].1.len as nat,
        led: true,
    });
    assert(q.led_parts@[lo[i] as int].1.len >= 0);
    lemma_led_resolved_len(recs, parts, k, p);
}

} // verus!
