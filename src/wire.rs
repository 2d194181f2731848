//! The `frame.dat` wire layout: encoding, reading back, and their agreement.
use vstd::prelude::*;
use crate::frames::CompiledFrame;
use crate::types::Color;

verus! {

/// The four little-endian bytes of `n`.
pub open spec fn le_bytes(n: u32) -> Seq<u8> {
    seq![
        (n % 256) as u8,
        (n / 256 % 256) as u8,
        (n / 65536 % 256) as u8,
        (n / 16777216 % 256) as u8,
    ]
}

/// Appends `num` to `v` as four little-endian bytes.
pub fn write_little_endian(num: &u32, v: &mut Vec<u8>)
    ensures
        final(v)@ == old(v)@ + le_bytes(*num),
{
    let n: u32 = *num;
    v.push((n % 256) as u8);
    v.push((n / 256 % 256) as u8);
    v.push((n / 65536 % 256) as u8);
    v.push((n / 16777216 % 256) as u8);
    assert(v@ =~= old(v)@ + le_bytes(n));
}

/// The number that four little-endian bytes stand for.
pub open spec fn le_value(b: Seq<u8>) -> u32 {
    (b[0] as int + 256 * b[1] as int + 65536 * b[2] as int + 16777216 * b[3] as int) as u32
}

pub proof fn lemma_le_round_trip(n: u32)
    ensures
        le_value(le_bytes(n)) == n,
{
    let x = n as int;
    assert(x == x % 256 + 256 * (x / 256 % 256) + 65536 * (x / 65536 % 256) + 16777216 * (x / 16777216 % 256))
        by (nonlinear_arith)
        requires 0 <= x < 0x1_0000_0000;
}

/// The three bytes of a colour on the wire: green, red, blue.
pub open spec fn grb(c: Color) -> Seq<u8> {
    seq![c.g as u8, c.r as u8, c.b as u8]
}

/// The colours of one strip on the wire, in strip order.
pub open spec fn strip_bytes(v: Seq<Color>) -> Seq<u8>
    decreases v.len(),
{
    if v.len() == 0 {
        Seq::empty()
    } else {
        strip_bytes(v.drop_last()) + grb(v.last())
    }
}

/// The colours of all parts of a frame on the wire, in channel order.
pub open spec fn parts_bytes(ps: Seq<Seq<Color>>) -> Seq<u8>
    decreases ps.len(),
{
    if ps.len() == 0 {
        Seq::empty()
    } else {
        parts_bytes(ps.drop_last()) + strip_bytes(ps.last())
    }
}

/// What one frame of `frame.dat` carries.
pub struct FrameRecord {
    pub start: u32,
    pub fade: u8,
    pub payload: Seq<u8>,
    pub checksum: u32,
}

pub open spec fn record_of(f: CompiledFrame) -> FrameRecord {
    FrameRecord {
        start: f.start,
        fade: f.fade,
        payload: parts_bytes(Seq::new(f.parts@.len(), |p: int| f.parts@[p]@)),
        checksum: f.checksum,
    }
}

/// One frame on the wire.
pub open spec fn record_bytes(f: FrameRecord) -> Seq<u8> {
    le_bytes(f.start) + seq![f.fade] + f.payload + le_bytes(f.checksum)
}

pub open spec fn records_bytes(fs: Seq<FrameRecord>) -> Seq<u8>
    decreases fs.len(),
{
    if fs.len() == 0 {
        Seq::empty()
    } else {
        records_bytes(fs.drop_last()) + record_bytes(fs.last())
    }
}

pub open spec fn version() -> Seq<u8> {
    seq![0u8, 0u8]
}

/// The whole of `frame.dat` for these frames.
pub open spec fn frame_dat_bytes(fs: Seq<FrameRecord>) -> Seq<u8> {
    version() + records_bytes(fs)
}

/// The frames read back from `b`, each with a payload of `n` bytes; `None`
/// where `b` is not a whole number of frames.
pub open spec fn parse_records(b: Seq<u8>, n: nat) -> Option<Seq<FrameRecord>>
    decreases b.len(),
{
    let size = n + 9;
    if b.len() == 0 {
        Some(Seq::empty())
    } else if b.len() < size {
        None
    } else {
        let cut = b.len() - size;
        match parse_records(b.subrange(0, cut), n) {
            None => None,
            Some(fs) => Some(fs.push(decode_record(b.subrange(cut, b.len() as int), n))),
        }
    }
}

pub open spec fn decode_record(r: Seq<u8>, n: nat) -> FrameRecord {
    FrameRecord {
        start: le_value(r.subrange(0, 4)),
        fade: r[4],
        payload: r.subrange(5, 5 + n as int),
        checksum: le_value(r.subrange(5 + n as int, 9 + n as int)),
    }
}

pub open spec fn parse_frame_dat_spec(b: Seq<u8>, n: nat) -> Option<Seq<FrameRecord>> {
    if b.len() >= 2 && b[0] == 0 && b[1] == 0 {
        parse_records(b.subrange(2, b.len() as int), n)
    } else {
        None
    }
}

proof fn lemma_decode_record(f: FrameRecord, n: nat)
    requires
        f.payload.len() == n,
    ensures
        decode_record(record_bytes(f), n) == f,
        record_bytes(f).len() == n + 9,
{
    let rb = record_bytes(f);
    lemma_le_round_trip(f.start);
    lemma_le_round_trip(f.checksum);
    assert(rb.subrange(0, 4) =~= le_bytes(f.start));
    assert(rb.subrange(5, 5 + n as int) =~= f.payload);
    assert(rb.subrange(5 + n as int, 9 + n as int) =~= le_bytes(f.checksum));
}

proof fn lemma_records_round_trip(fs: Seq<FrameRecord>, n: nat)
    requires
        forall|k: int| 0 <= k < fs.len() ==> (#[trigger] fs[k]).payload.len() == n,
    ensures
        parse_records(records_bytes(fs), n) == Some(fs),
    decreases fs.len(),
{
    if fs.len() > 0 {
        let rest = fs.drop_last();
        let f = fs.last();
        assert(f == fs[fs.len() - 1]);
        assert forall|k: int| 0 <= k < rest.len() implies (#[trigger] rest[k]).payload.len() == n by {
            assert(rest[k] == fs[k]);
        }
        lemma_records_round_trip(rest, n);
        lemma_decode_record(f, n);
        let b = records_bytes(fs);
        let rb = record_bytes(f);
        let head = records_bytes(rest);
        assert(b == head + rb);
        let cut = head.len() as int;
        assert(b.len() == cut + n + 9);
        assert(b.subrange(0, cut) =~= head);
        assert(b.subrange(cut, b.len() as int) =~= rb);
        assert(rest.push(f) =~= fs);
    }
}

/// Reading back an encoded `frame.dat` gives the frames that were encoded:
/// their times, fade flags, channel-ordered colour bytes and checksums.
pub proof fn lemma_frame_dat_round_trip(fs: Seq<FrameRecord>, n: nat)
    requires
        forall|k: int| 0 <= k < fs.len() ==> (#[trigger] fs[k]).payload.len() == n,
    ensures
        parse_frame_dat_spec(frame_dat_bytes(fs), n) == Some(fs),
{
    lemma_records_round_trip(fs, n);
    assert(frame_dat_bytes(fs).subrange(2, frame_dat_bytes(fs).len() as int) =~= records_bytes(fs));
}

pub open spec fn frame_records(frames: Seq<CompiledFrame>) -> Seq<FrameRecord> {
    Seq::new(frames.len(), |k: int| record_of(frames[k]))
}

pub open spec fn colors_wf(v: Seq<Color>) -> bool {
    forall|i: int| 0 <= i < v.len() ==> (#[trigger] v[i]).wf()
}

pub open spec fn frame_wf(f: CompiledFrame) -> bool {
    forall|p: int| 0 <= p < f.parts@.len() ==> colors_wf((#[trigger] f.parts@[p])@)
}

fn push_strip(v: &Vec<Color>, out: &mut Vec<u8>)
    requires
        colors_wf(v@),
    ensures
        final(out)@ == old(out)@ + strip_bytes(v@),
{
    let mut i: usize = 0;
    while i < v.len()
        invariant
            i <= v@.len(),
            colors_wf(v@),
            out@ == old(out)@ + strip_bytes(v@.subrange(0, i as int)),
        decreases v@.len() - i,
    {
        let c = v[i];
        out.push(c.g as u8);
        out.push(c.r as u8);
        out.push(c.b as u8);
        proof {
            let s = v@.subrange(0, i + 1);
            assert(s.drop_last() =~= v@.subrange(0, i as int));
            assert(s.last() == c);
            assert(out@ =~= old(out)@ + strip_bytes(s));
        }
        i = i + 1;
    }
    assert(v@.subrange(0, i as int) =~= v@);
}

fn push_frame(f: &CompiledFrame, out: &mut Vec<u8>)
    requires
        frame_wf(*f),
    ensures
        final(out)@ == old(out)@ + record_bytes(record_of(*f)),
{
    let ghost ps = Seq::new(f.parts@.len(), |p: int| f.parts@[p]@);
    write_little_endian(&f.start, out);
    out.push(f.fade);
    let ghost mid = out@;
    let mut p: usize = 0;
    while p < f.parts.len()
        invariant
            p <= f.parts@.len(),
            frame_wf(*f),
            ps == Seq::new(f.parts@.len(), |q: int| f.parts@[q]@),
            out@ == mid + parts_bytes(ps.subrange(0, p as int)),
        decreases f.parts@.len() - p,
    {
        push_strip(&f.parts[p], out);
        proof {
            let s = ps.subrange(0, p + 1);
            assert(s.drop_last() =~= ps.subrange(0, p as int));
            assert(out@ =~= mid + parts_bytes(s));
        }
        p = p + 1;
    }
    assert(ps.subrange(0, p as int) =~= ps);
    write_little_endian(&f.checksum, out);
    assert(out@ =~= old(out)@ + record_bytes(record_of(*f)));
}

/// Serialises compiled frames into `frame.dat`: the version, then each frame
/// with its time, fade flag, GRB colour bytes in channel order and checksum.
pub fn encode_frame_dat(frames: &Vec<CompiledFrame>) -> (r: Vec<u8>)
    requires
        forall|k: int| 0 <= k < frames@.len() ==> frame_wf(#[trigger] frames@[k]),
    ensures
        r@ == frame_dat_bytes(frame_records(frames@)),
{
    let mut out: Vec<u8> = Vec::new();
    out.push(0);
    out.push(0);
    let mut k: usize = 0;
    while k < frames.len()
        invariant
            k <= frames@.len(),
            forall|j: int| 0 <= j < frames@.len() ==> frame_wf(#[trigger] frames@[j]),
            out@ == version() + records_bytes(frame_records(frames@).subrange(0, k as int)),
        decreases frames@.len() - k,
    {
        push_frame(&frames[k], &mut out);
        proof {
            let s = frame_records(frames@).subrange(0, k + 1);
            assert(s.drop_last() =~= frame_records(frames@).subrange(0, k as int));
            assert(out@ =~= version() + records_bytes(s));
        }
        k = k + 1;
    }
    assert(frame_records(frames@).subrange(0, k as int) =~= frame_records(frames@));
    out
}

/// One frame read back from `frame.dat`.
pub struct ParsedFrame {
    pub start: u32,
    pub fade: u8,
    pub payload: Vec<u8>,
    pub checksum: u32,
}

pub open spec fn parsed_record(f: ParsedFrame) -> FrameRecord {
    FrameRecord { start: f.start, fade: f.fade, payload: f.payload@, checksum: f.checksum }
}

proof fn lemma_parse_some(b: Seq<u8>, n: nat)
    ensures
        parse_records(b, n) is Some <==> b.len() % (n + 9) == 0,
    decreases b.len(),
{
    let size = n + 9;
    if b.len() < size {
        vstd::arithmetic::div_mod::lemma_small_mod(b.len(), size);
    }
    if b.len() > 0 && b.len() >= size {
        let cut = b.len() - size;
        lemma_parse_some(b.subrange(0, cut), n);
        vstd::arithmetic::div_mod::lemma_mod_add_multiples_vanish(cut as int, size as int);
    }
}

fn read_le(b: &Vec<u8>, at: usize) -> (r: u32)
    requires
        at + 4 <= b@.len(),
    ensures
        r == le_value(b@.subrange(at as int, at + 4)),
{
    let bl = b.len();
    assert(at + 4 <= bl);
    let x: u64 = b[at] as u64 + 256 * (b[at + 1] as u64) + 65536 * (b[at + 2] as u64) + 16777216 * (b[at + 3] as u64);
    x as u32
}

/// Reads `frame.dat` back into frames whose colour payload is `payload_len`
/// bytes each; `None` where the bytes are not such a file.
pub fn parse_frame_dat(b: &Vec<u8>, payload_len: usize) -> (r: Option<Vec<ParsedFrame>>)
    requires
        payload_len + 9 <= usize::MAX,
    ensures
        match r {
            Some(fs) => parse_frame_dat_spec(b@, payload_len as nat) == Some(
                Seq::new(fs@.len(), |k: int| parsed_record(fs@[k])),
            ),
            None => parse_frame_dat_spec(b@, payload_len as nat) is None,
        },
{
    if b.len() < 2 || b[0] != 0 || b[1] != 0 {
        return None;
    }
    let size = payload_len + 9;
    let ghost n = payload_len as nat;
    let ghost body = b@.subrange(2, b@.len() as int);
    proof {
        lemma_parse_some(body, n);
    }
    if (b.len() - 2) % size != 0 {
        return None;
    }
    let mut out: Vec<ParsedFrame> = Vec::new();
    let mut pos: usize = 2;
    while pos < b.len()
        invariant
            2 <= pos <= b@.len(),
            size == payload_len + 9,
            n == payload_len as nat,
            body == b@.subrange(2, b@.len() as int),
            (b@.len() - 2) % (size as int) == 0,
            (pos - 2) % (size as int) == 0,
            parse_records(b@.subrange(2, pos as int), n) == Some(Seq::new(out@.len(), |k: int| parsed_record(out@[k]))),
        decreases b@.len() - pos,
    {
        proof {
            vstd::arithmetic::div_mod::lemma_mod_sub_multiples_vanish((b@.len() - 2) as int, size as int);
            assert((b@.len() - pos) % (size as int) == 0) by {
                let a = b@.len() - 2;
                let c = pos - 2;
                vstd::arithmetic::div_mod::lemma_fundamental_div_mod(a as int, size as int);
                vstd::arithmetic::div_mod::lemma_fundamental_div_mod(c as int, size as int);
                let qa = a / (size as int);
                let qc = c / (size as int);
                assert(a - c == size * (qa - qc)) by (nonlinear_arith)
                    requires a == size * qa + 0, c == size * qc + 0;
                vstd::arithmetic::div_mod::lemma_mod_multiples_basic(qa - qc, size as int);
                assert((qa - qc) * size == size * (qa - qc)) by (nonlinear_arith);
            }
            if b@.len() - pos < size {
                vstd::arithmetic::div_mod::lemma_small_mod((b@.len() - pos) as nat, size as nat);
            }
            assert(pos + size <= b@.len());
        }
        let start = read_le(b, pos);
        let fade = b[pos + 4];
        let mut payload: Vec<u8> = Vec::new();
        let mut i: usize = 0;
        let bl = b.len();
        while i < payload_len
            invariant
                bl == b@.len(),
                i <= payload_len,
                pos + size <= b@.len(),
                size == payload_len + 9,
                payload@ =~= b@.subrange(pos + 5, pos + 5 + i),
            decreases payload_len - i,
        {
            payload.push(b[pos + 5 + i]);
            i = i + 1;
        }
        let checksum = read_le(b, pos + 5 + payload_len);
        let ghost old_out = Seq::new(out@.len(), |k: int| parsed_record(out@[k]));
        out.push(ParsedFrame { start, fade, payload, checksum });
        proof {
            let whole = b@.subrange(2, pos + size);
            let rec = b@.subrange(pos as int, pos + size);
            assert(whole.subrange(0, whole.len() - size) =~= b@.subrange(2, pos as int));
            assert(whole.subrange(whole.len() - size, whole.len() as int) =~= rec);
            assert(rec.subrange(0, 4) =~= b@.subrange(pos as int, pos + 4));
            assert(rec.subrange(5, 5 + n as int) =~= b@.subrange(pos + 5, pos + 5 + payload_len));
            assert(rec.subrange(5 + n as int, 9 + n as int) =~= b@.subrange(pos + 5 + payload_len, pos + 5 + payload_len + 4));
            assert(decode_record(rec, n) == parsed_record(out@[out@.len() - 1]));
            assert(Seq::new(out@.len(), |k: int| parsed_record(out@[k])) =~= old_out.push(parsed_record(out@[out@.len() - 1])));
            vstd::arithmetic::div_mod::lemma_mod_add_multiples_vanish((pos - 2) as int, size as int);
        }
        pos = pos + size;
    }
    Some(out)
}

} // verus!
