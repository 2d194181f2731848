//! Store records and the lookups made on them.
use vstd::prelude::*;
use crate::gradient::{stops_wf, Stop};
use crate::types::{Color, Rgba, MAX_ALPHA};

verus! {

/// What a control row asks of its part in its frame.
#[derive(Debug, Clone, Copy, PartialEq, Eq, Structural)]
pub enum ControlKind {
    /// A direct colour (and, on LED strips, any explicit bulbs).
    Color,
    /// A reusable gradient effect.
    Effect,
    /// Keep what the previous frame showed.
    NoEffect,
}

/// One row of the colour table.
#[derive(Debug, Clone, Copy, PartialEq, Eq, Structural)]
pub struct ColorRecord {
    pub id: i32,
    pub color: Color,
}

/// One control row: a part's instruction in one frame, with that frame's time
/// and fade flag.
#[derive(Debug)]
pub struct ControlRecord {
    pub id: i32,
    pub start: i32,
    pub fade: bool,
    pub part_name: String,
    pub kind: ControlKind,
    pub color_id: Option<i32>,
    pub alpha: Option<i32>,
    pub effect_id: Option<i32>,
}

/// One explicit LED colour: a keyframe stop of an effect (`owner` is the
/// effect) or a bulb of a control row (`owner` is the control row).
#[derive(Debug, Clone, Copy, PartialEq, Eq, Structural)]
pub struct StopRecord {
    pub owner: i32,
    pub position: i32,
    pub color_id: Option<i32>,
    pub alpha: i32,
}

pub open spec fn alpha_valid(a: i32) -> bool {
    0 <= a <= MAX_ALPHA
}

pub open spec fn colors_valid(colors: Seq<ColorRecord>) -> bool {
    forall|i: int| 0 <= i < colors.len() ==> (#[trigger] colors[i]).color.wf()
}

pub open spec fn stop_records_valid(recs: Seq<StopRecord>) -> bool {
    forall|i: int| 0 <= i < recs.len() ==> alpha_valid((#[trigger] recs[i]).alpha)
}

pub open spec fn controls_valid(rows: Seq<ControlRecord>) -> bool {
    forall|i: int| 0 <= i < rows.len() ==> ((#[trigger] rows[i]).alpha matches Some(a) ==> alpha_valid(a))
}

/// The colour of the last row of the table with this id; black if none.
pub open spec fn last_color(colors: Seq<ColorRecord>, id: i32) -> Color
    decreases colors.len(),
{
    if colors.len() == 0 {
        Color::black()
    } else if colors.last().id == id {
        colors.last().color
    } else {
        last_color(colors.drop_last(), id)
    }
}

/// The colour a colour reference stands for; a missing reference is black.
pub open spec fn color_of(colors: Seq<ColorRecord>, id: Option<i32>) -> Color {
    match id {
        Some(i) => last_color(colors, i),
        None => Color::black(),
    }
}

/// A missing alpha is no light.
pub open spec fn alpha_of(a: Option<i32>) -> i32 {
    match a {
        Some(x) => x,
        None => 0,
    }
}

pub open spec fn with_alpha(c: Color, a: i32) -> Rgba {
    Rgba { r: c.r, g: c.g, b: c.b, a }
}

pub open spec fn stop_of(colors: Seq<ColorRecord>, rec: StopRecord) -> Stop {
    Stop { position: rec.position, value: with_alpha(color_of(colors, rec.color_id), rec.alpha) }
}

/// The stops of `owner`, in record order, with their colours looked up.
pub open spec fn stops_for(recs: Seq<StopRecord>, colors: Seq<ColorRecord>, owner: i32) -> Seq<Stop>
    decreases recs.len(),
{
    if recs.len() == 0 {
        Seq::empty()
    } else if recs.last().owner == owner {
        stops_for(recs.drop_last(), colors, owner).push(stop_of(colors, recs.last()))
    } else {
        stops_for(recs.drop_last(), colors, owner)
    }
}

proof fn lemma_last_color_wf(colors: Seq<ColorRecord>, id: i32)
    requires
        colors_valid(colors),
    ensures
        last_color(colors, id).wf(),
    decreases colors.len(),
{
    if colors.len() > 0 {
        assert(colors.last() == colors[colors.len() - 1]);
        if colors.last().id != id {
            assert(colors_valid(colors.drop_last())) by {
                assert forall|i: int| 0 <= i < colors.drop_last().len() implies (#[trigger] colors.drop_last()[i]).color.wf() by {
                    assert(colors.drop_last()[i] == colors[i]);
                }
            }
            lemma_last_color_wf(colors.drop_last(), id);
        }
    }
}

pub proof fn lemma_color_of_wf(colors: Seq<ColorRecord>, id: Option<i32>)
    requires
        colors_valid(colors),
    ensures
        color_of(colors, id).wf(),
{
    if let Some(i) = id {
        lemma_last_color_wf(colors, i);
    }
}

/// The colour of a colour reference, looked up in the colour table.
pub fn find_color(colors: &Vec<ColorRecord>, id: Option<i32>) -> (r: Color)
    requires
        colors_valid(colors@),
    ensures
        r == color_of(colors@, id),
        r.wf(),
{
    proof {
        lemma_color_of_wf(colors@, id);
    }
    match id {
        None => Color { r: 0, g: 0, b: 0 },
        Some(want) => {
            let mut res = Color { r: 0, g: 0, b: 0 };
            let mut i: usize = 0;
            while i < colors.len()
                invariant
                    i <= colors@.len(),
                    res == last_color(colors@.subrange(0, i as int), want),
                decreases colors@.len() - i,
            {
                proof {
                    let s = colors@.subrange(0, i + 1);
                    assert(s.drop_last() =~= colors@.subrange(0, i as int));
                }
                if colors[i].id == want {
                    res = colors[i].color;
                }
                i = i + 1;
            }
            assert(colors@.subrange(0, i as int) =~= colors@);
            res
        },
    }
}

proof fn lemma_stops_for_wf(recs: Seq<StopRecord>, colors: Seq<ColorRecord>, owner: i32)
    requires
        colors_valid(colors),
        stop_records_valid(recs),
    ensures
        stops_wf(stops_for(recs, colors, owner)),
    decreases recs.len(),
{
    if recs.len() > 0 {
        let rest = recs.drop_last();
        assert(recs.last() == recs[recs.len() - 1]);
        assert(stop_records_valid(rest)) by {
            assert forall|i: int| 0 <= i < rest.len() implies alpha_valid((#[trigger] rest[i]).alpha) by {
                assert(rest[i] == recs[i]);
            }
        }
        lemma_stops_for_wf(rest, colors, owner);
        lemma_color_of_wf(colors, recs.last().color_id);
    }
}

/// The stops of `owner`, in record order, with their colours looked up.
pub fn collect_stops(recs: &Vec<StopRecord>, colors: &Vec<ColorRecord>, owner: i32) -> (r: Vec<Stop>)
    requires
        colors_valid(colors@),
        stop_records_valid(recs@),
    ensures
        r@ == stops_for(recs@, colors@, owner),
        stops_wf(r@),
{
    let mut out: Vec<Stop> = Vec::new();
    let mut i: usize = 0;
    while i < recs.len()
        invariant
            i <= recs@.len(),
            colors_valid(colors@),
            out@ == stops_for(recs@.subrange(0, i as int), colors@, owner),
        decreases recs@.len() - i,
    {
        proof {
            let s = recs@.subrange(0, i + 1);
            assert(s.drop_last() =~= recs@.subrange(0, i as int));
            assert(s.last() == recs@[i as int]);
        }
        let rec = recs[i];
        if rec.owner == owner {
            let c = find_color(colors, rec.color_id);
            out.push(Stop { position: rec.position, value: Rgba { r: c.r, g: c.g, b: c.b, a: rec.alpha } });
        }
        i = i + 1;
    }
    assert(recs@.subrange(0, i as int) =~= recs@);
    proof {
        lemma_stops_for_wf(recs@, colors@, owner);
    }
    out
}

} // verus!
