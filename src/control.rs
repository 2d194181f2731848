//! The `control.dat` metadata layout.
use vstd::prelude::*;
use crate::types::CompileError;
use crate::wire::{le_bytes, version, write_little_endian};

verus! {

pub open spec fn strictly_increasing(s: Seq<u32>) -> bool {
    forall|i: int, j: int| 0 <= i < j < s.len() ==> #[trigger] s[i] < #[trigger] s[j]
}

/// The distinct frame times of `starts`, ascending.
pub open spec fn is_frame_list(starts: Seq<u32>, r: Seq<u32>) -> bool {
    &&& strictly_increasing(r)
    &&& forall|x: u32| r.contains(x) <==> starts.contains(x)
}

/// The distinct values of `starts`, in ascending order.
pub fn sorted_starts(starts: &Vec<u32>) -> (r: Vec<u32>)
    ensures
        is_frame_list(starts@, r@),
{
    let mut out: Vec<u32> = Vec::new();
    let mut i: usize = 0;
    while i < starts.len()
        invariant
            i <= starts@.len(),
            strictly_increasing(out@),
            forall|x: u32| out@.contains(x) <==> starts@.subrange(0, i as int).contains(x),
        decreases starts@.len() - i,
    {
        let x = starts[i];
        let mut pos: usize = 0;
        while pos < out.len() && out[pos] < x
            invariant
                pos <= out@.len(),
                forall|k: int| 0 <= k < pos ==> out@[k] < x,
            decreases out@.len() - pos,
        {
            pos = pos + 1;
        }
        let ghost prefix = starts@.subrange(0, i as int);
        assert(starts@.subrange(0, i + 1) =~= prefix.push(x));
        if pos < out.len() && out[pos] == x {
            assert forall|y: u32| out@.contains(y) <==> prefix.push(x).contains(y) by {
                if y == x {
                    assert(out@[pos as int] == x);
                }
                if prefix.push(x).contains(y) && y != x {
                    let t = choose|t: int| 0 <= t < prefix.push(x).len() && prefix.push(x)[t] == y;
                    assert(prefix[t] == y);
                }
            }
        } else {
            let ghost old_out = out@;
            proof {
                old_out.insert_ensures(pos as int, x);
                if pos < old_out.len() {
                    assert forall|k: int| pos <= k < old_out.len() implies old_out[k] > x by {
                        if k > pos {
                            assert(old_out[pos as int] < old_out[k]);
                        }
                    }
                }
            }
            out.insert(pos, x);
            proof {
                assert forall|a: int, b: int| 0 <= a < b < out@.len() implies #[trigger] out@[a] < #[trigger] out@[b] by {
                    if a < pos && b < pos {
                        assert(out@[a] == old_out[a] && out@[b] == old_out[b]);
                    } else if a < pos && b == pos {
                        assert(out@[a] == old_out[a]);
                    } else if a < pos {
                        assert(out@[a] == old_out[a] && out@[b] == old_out[b - 1]);
                    } else if a == pos {
                        assert(out@[b] == old_out[b - 1]);
                    } else {
                        assert(out@[a] == old_out[a - 1] && out@[b] == old_out[b - 1]);
                    }
                }
                assert forall|y: u32| out@.contains(y) <==> prefix.push(x).contains(y) by {
                    if y == x {
                        assert(out@[pos as int] == x);
                        assert(prefix.push(x)[prefix.len() as int] == x);
                    } else {
                        if out@.contains(y) {
                            let t = choose|t: int| 0 <= t < out@.len() && out@[t] == y;
                            if t < pos {
                                assert(old_out[t] == y);
                            } else {
                                assert(old_out[t - 1] == y);
                            }
                            assert(old_out.contains(y));
                            let u = choose|u: int| 0 <= u < prefix.len() && prefix[u] == y;
                            assert(prefix.push(x)[u] == y);
                        }
                        if prefix.push(x).contains(y) {
                            let t = choose|t: int| 0 <= t < prefix.push(x).len() && prefix.push(x)[t] == y;
                            assert(prefix[t] == y);
                            assert(prefix.contains(y));
                            let u = choose|u: int| 0 <= u < old_out.len() && old_out[u] == y;
                            if u < pos {
                                assert(out@[u] == y);
                            } else {
                                assert(out@[u + 1] == y);
                            }
                        }
                    }
                }
            }
        }
        i = i + 1;
    }
    assert(starts@.subrange(0, i as int) =~= starts@);
    out
}

pub open spec fn len_bytes(lens: Seq<i32>) -> Seq<u8> {
    Seq::new(lens.len(), |i: int| lens[i] as u8)
}

pub open spec fn times_bytes(fs: Seq<u32>) -> Seq<u8>
    decreases fs.len(),
{
    if fs.len() == 0 {
        Seq::empty()
    } else {
        times_bytes(fs.drop_last()) + le_bytes(fs.last())
    }
}

/// Whether the counts and strip lengths fit their one-byte fields.
pub open spec fn header_fits(of_count: int, lens: Seq<i32>) -> bool {
    &&& of_count <= 255
    &&& lens.len() <= 255
    &&& forall|i: int| 0 <= i < lens.len() ==> 0 <= #[trigger] lens[i] <= 255
}

/// `control.dat`: the version, the fibre count, the strip count, each strip's
/// length, the frame count and each frame's start time.
pub open spec fn control_dat_bytes(of_count: int, lens: Seq<i32>, frames: Seq<u32>) -> Seq<u8> {
    version() + seq![of_count as u8, lens.len() as u8] + len_bytes(lens) + le_bytes(frames.len() as u32)
        + times_bytes(frames)
}

/// Serialises the `control.dat` metadata; fails when a count or a strip length
/// does not fit its one-byte field, or the frame count its four bytes.
pub fn encode_control_dat(of_count: usize, led_lens: &Vec<i32>, frames: &Vec<u32>) -> (r: Result<Vec<u8>, CompileError>)
    ensures
        match r {
            Ok(b) => header_fits(of_count as int, led_lens@) && frames@.len() <= u32::MAX
                && b@ == control_dat_bytes(of_count as int, led_lens@, frames@),
            Err(e) => !(header_fits(of_count as int, led_lens@) && frames@.len() <= u32::MAX)
                && e == CompileError::RangeViolation,
        },
{
    if of_count > 255 || led_lens.len() > 255 || frames.len() > 0xffff_ffff {
        return Err(CompileError::RangeViolation);
    }
    let mut out: Vec<u8> = Vec::new();
    out.push(0);
    out.push(0);
    out.push(of_count as u8);
    out.push(led_lens.len() as u8);
    let ghost head = out@;
    let mut i: usize = 0;
    while i < led_lens.len()
        invariant
            i <= led_lens@.len(),
            forall|t: int| 0 <= t < i ==> 0 <= #[trigger] led_lens@[t] <= 255,
            out@ == head + len_bytes(led_lens@.subrange(0, i as int)),
        decreases led_lens@.len() - i,
    {
        let l = led_lens[i];
        if l < 0 || l > 255 {
            assert(!header_fits(of_count as int, led_lens@));
            return Err(CompileError::RangeViolation);
        }
        out.push(l as u8);
        assert(out@ =~= head + len_bytes(led_lens@.subrange(0, i + 1)));
        i = i + 1;
    }
    assert(led_lens@.subrange(0, i as int) =~= led_lens@);
    write_little_endian(&(frames.len() as u32), &mut out);
    let ghost mid = out@;
    let mut k: usize = 0;
    while k < frames.len()
        invariant
            k <= frames@.len(),
            out@ == mid + times_bytes(frames@.subrange(0, k as int)),
        decreases frames@.len() - k,
    {
        write_little_endian(&frames[k], &mut out);
        proof {
            let s = frames@.subrange(0, k + 1);
            assert(s.drop_last() =~= frames@.subrange(0, k as int));
            assert(out@ =~= mid + times_bytes(s));
        }
        k = k + 1;
    }
    assert(frames@.subrange(0, k as int) =~= frames@);
    assert(out@ =~= control_dat_bytes(of_count as int, led_lens@, frames@));
    Ok(out)
}

} // verus!
