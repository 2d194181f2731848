//! Effect gradients and bulb placement on an LED strip.
use vstd::prelude::*;
use crate::types::{CompileError, Rgba};

verus! {

/// One explicit colour at one LED of a strip.
#[derive(Debug, Clone, Copy, PartialEq, Eq, Structural)]
pub struct Stop {
    pub position: i32,
    pub value: Rgba,
}

pub open spec fn stops_wf(stops: Seq<Stop>) -> bool {
    forall|i: int| 0 <= i < stops.len() ==> (#[trigger] stops[i]).value.wf()
}

/// Every stop lies on a strip of `len` LEDs.
pub open spec fn stops_in_strip(stops: Seq<Stop>, len: int) -> bool {
    forall|i: int| 0 <= i < stops.len() ==> 0 <= (#[trigger] stops[i]).position < len
}

/// The value that unset slots of an effect take: that of its first stop.
pub open spec fn seed_of(stops: Seq<Stop>) -> Rgba {
    if stops.len() > 0 {
        stops[0].value
    } else {
        Rgba::transparent()
    }
}

/// A strip of `len` slots, all `seed`, on which the stops are written in order.
pub open spec fn paint(stops: Seq<Stop>, seed: Rgba, len: nat) -> Seq<Rgba>
    decreases stops.len(),
{
    if stops.len() == 0 {
        Seq::new(len, |_i: int| seed)
    } else {
        paint(stops.drop_last(), seed, len).update(stops.last().position as int, stops.last().value)
    }
}

/// The colour array of an effect: every slot seeded with the first stop, then
/// each stop written at its position.
pub open spec fn effect_gradient(stops: Seq<Stop>, len: nat) -> Seq<Rgba> {
    paint(stops, seed_of(stops), len)
}

/// A strip of `len` slots, all unset, on which the stops are written in order.
pub open spec fn place(stops: Seq<Stop>, len: nat) -> Seq<Option<Rgba>>
    decreases stops.len(),
{
    if stops.len() == 0 {
        Seq::new(len, |_i: int| None)
    } else {
        place(stops.drop_last(), len).update(stops.last().position as int, Some(stops.last().value))
    }
}

pub proof fn lemma_paint_len(stops: Seq<Stop>, seed: Rgba, len: nat)
    requires
        stops_in_strip(stops, len as int),
    ensures
        paint(stops, seed, len).len() == len,
    decreases stops.len(),
{
    if stops.len() > 0 {
        lemma_paint_len(stops.drop_last(), seed, len);
    }
}

proof fn lemma_paint_wf(stops: Seq<Stop>, seed: Rgba, len: nat)
    requires
        stops_wf(stops),
        stops_in_strip(stops, len as int),
        seed.wf(),
    ensures
        forall|i: int| 0 <= i < len ==> (#[trigger] paint(stops, seed, len)[i]).wf(),
    decreases stops.len(),
{
    lemma_paint_len(stops, seed, len);
    if stops.len() > 0 {
        let rest = stops.drop_last();
        assert(stops_wf(rest) && stops_in_strip(rest, len as int)) by {
            assert forall|j: int| 0 <= j < rest.len() implies #[trigger] rest[j] == stops[j] by {}
        }
        lemma_paint_wf(rest, seed, len);
        lemma_paint_len(rest, seed, len);
        assert(stops.last() == stops[stops.len() - 1]);
        assert forall|i: int| 0 <= i < len implies (#[trigger] paint(stops, seed, len)[i]).wf() by {
            if i != stops.last().position as int {
                assert(paint(stops, seed, len)[i] == paint(rest, seed, len)[i]);
            }
        }
    }
}

pub proof fn lemma_place_len(stops: Seq<Stop>, len: nat)
    requires
        stops_in_strip(stops, len as int),
    ensures
        place(stops, len).len() == len,
    decreases stops.len(),
{
    if stops.len() > 0 {
        lemma_place_len(stops.drop_last(), len);
    }
}

proof fn lemma_place_wf(stops: Seq<Stop>, len: nat)
    requires
        stops_wf(stops),
        stops_in_strip(stops, len as int),
    ensures
        forall|i: int|
            0 <= i < len && (#[trigger] place(stops, len)[i]) is Some ==> place(stops, len)[i]->0.wf(),
    decreases stops.len(),
{
    lemma_place_len(stops, len);
    if stops.len() > 0 {
        let rest = stops.drop_last();
        assert(stops_wf(rest) && stops_in_strip(rest, len as int)) by {
            assert forall|j: int| 0 <= j < rest.len() implies #[trigger] rest[j] == stops[j] by {}
        }
        lemma_place_wf(rest, len);
        lemma_place_len(rest, len);
        assert(stops.last() == stops[stops.len() - 1]);
        assert forall|i: int| 0 <= i < len && (#[trigger] place(stops, len)[i]) is Some implies place(
            stops,
            len,
        )[i]->0.wf() by {
            if i != stops.last().position as int {
                assert(place(stops, len)[i] == place(rest, len)[i]);
            }
        }
    }
}

/// An effect's colour array has exactly its strip's length, and every slot
/// holds colour channels and an alpha within their ranges.
pub proof fn lemma_effect_shape(stops: Seq<Stop>, len: nat)
    requires
        stops_wf(stops),
        stops_in_strip(stops, len as int),
    ensures
        effect_gradient(stops, len).len() == len,
        forall|i: int| 0 <= i < len ==> (#[trigger] effect_gradient(stops, len)[i]).wf(),
{
    if stops.len() > 0 {
        assert(stops[0].value.wf());
    }
    lemma_paint_len(stops, seed_of(stops), len);
    lemma_paint_wf(stops, seed_of(stops), len);
}

/// Whether every stop lies on a strip of `len` LEDs, checked in order.
fn check_in_strip(len: usize, stops: &Vec<Stop>) -> (r: bool)
    ensures
        r == stops_in_strip(stops@, len as int),
{
    let mut i: usize = 0;
    while i < stops.len()
        invariant
            i <= stops@.len(),
            stops_in_strip(stops@.subrange(0, i as int), len as int),
        decreases stops@.len() - i,
    {
        let p = stops[i].position;
        if p < 0 || p as usize >= len {
            assert(!(0 <= stops@[i as int].position < len));
            return false;
        }
        assert(stops@.subrange(0, i + 1) =~= stops@.subrange(0, i as int).push(stops@[i as int]));
        i = i + 1;
    }
    assert(stops@.subrange(0, i as int) =~= stops@);
    true
}

/// Builds the colour array of one effect from its keyframe stops, taken in
/// position order.
pub fn build_effect(len: usize, stops: &Vec<Stop>) -> (r: Result<Vec<Rgba>, CompileError>)
    requires
        stops_wf(stops@),
    ensures
        match r {
            Ok(v) => stops_in_strip(stops@, len as int) && v@ == effect_gradient(stops@, len as nat),
            Err(e) => !stops_in_strip(stops@, len as int) && e == CompileError::PositionOutOfBounds,
        },
        r is Ok ==> r->Ok_0@.len() == len,
        r is Ok ==> forall|i: int| 0 <= i < len ==> (#[trigger] r->Ok_0@[i]).wf(),
{
    if !check_in_strip(len, stops) {
        return Err(CompileError::PositionOutOfBounds);
    }
    let seed = if stops.len() > 0 {
        stops[0].value
    } else {
        Rgba { r: 0, g: 0, b: 0, a: 0 }
    };
    let mut v: Vec<Rgba> = Vec::new();
    let mut k: usize = 0;
    while k < len
        invariant
            k <= len,
            v@ =~= Seq::new(k as nat, |_i: int| seed),
        decreases len - k,
    {
        v.push(seed);
        k = k + 1;
    }
    let mut i: usize = 0;
    while i < stops.len()
        invariant
            i <= stops@.len(),
            stops_in_strip(stops@, len as int),
            v@ == paint(stops@.subrange(0, i as int), seed, len as nat),
        decreases stops@.len() - i,
    {
        proof {
            lemma_paint_len(stops@.subrange(0, i as int), seed, len as nat);
            assert(stops@.subrange(0, i + 1).drop_last() =~= stops@.subrange(0, i as int));
        }
        let st = stops[i];
        v.set(st.position as usize, st.value);
        i = i + 1;
    }
    assert(stops@.subrange(0, i as int) =~= stops@);
    proof {
        lemma_paint_wf(stops@, seed, len as nat);
        lemma_paint_len(stops@, seed, len as nat);
    }
    Ok(v)
}

/// Writes bulb stops onto a strip of `len` LEDs, leaving the other slots unset.
pub fn place_bulbs(len: usize, stops: &Vec<Stop>) -> (r: Result<Vec<Option<Rgba>>, CompileError>)
    requires
        stops_wf(stops@),
    ensures
        match r {
            Ok(v) => stops_in_strip(stops@, len as int) && v@ == place(stops@, len as nat),
            Err(e) => !stops_in_strip(stops@, len as int) && e == CompileError::PositionOutOfBounds,
        },
        r is Ok ==> r->Ok_0@.len() == len,
        r is Ok ==> forall|i: int|
            0 <= i < len && (#[trigger] r->Ok_0@[i]) is Some ==> r->Ok_0@[i]->0.wf(),
{
    if !check_in_strip(len, stops) {
        return Err(CompileError::PositionOutOfBounds);
    }
    let mut v: Vec<Option<Rgba>> = Vec::new();
    let mut k: usize = 0;
    while k < len
        invariant
            k <= len,
            v@ =~= Seq::new(k as nat, |_i: int| None::<Rgba>),
        decreases len - k,
    {
        v.push(None);
        k = k + 1;
    }
    let mut i: usize = 0;
    while i < stops.len()
        invariant
            i <= stops@.len(),
            stops_in_strip(stops@, len as int),
            v@ == place(stops@.subrange(0, i as int), len as nat),
        decreases stops@.len() - i,
    {
        proof {
            lemma_place_len(stops@.subrange(0, i as int), len as nat);
            assert(stops@.subrange(0, i + 1).drop_last() =~= stops@.subrange(0, i as int));
        }
        let st = stops[i];
        v.set(st.position as usize, Some(st.value));
        i = i + 1;
    }
    assert(stops@.subrange(0, i as int) =~= stops@);
    proof {
        lemma_place_wf(stops@, len as nat);
        lemma_place_len(stops@, len as nat);
    }
    Ok(v)
}

} // verus!
