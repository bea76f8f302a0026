use vstd::prelude::*;
use vstd::slice::{slice_index_get, slice_subrange};
use vstd::string::StrSliceExecFns;
use crate::time::Time;
use crate::time::Day;
use crate::time::day_index;
use crate::error::Error;
use crate::csv::CsvObject;
use crate::text::{
    append_u64_pad, find_char, parse_u8_range, push_char, spec_dec_pad, spec_digit_char,
    spec_find_char, spec_parse_digits,
};
use vstd::string::StringExecFns;

verus! {

/// One recurring break period of the weekly timetable.
#[derive(Clone, Copy, Debug)]
pub struct Break {
    pub start: Time,
    pub end: Time,
}

/// The five packed bytes holding a start and an end time of day.  The start
/// occupies the top 17 bits of the 40, the end the bottom 17; the 6 bits
/// between them are zero.
pub open spec fn spec_pack_bytes(s: u64, e: u64) -> Seq<u8> {
    let v: u64 = (s << 23) | e;
    seq![
        ((v >> 32) & 0xFF) as u8,
        ((v >> 24) & 0xFF) as u8,
        ((v >> 16) & 0xFF) as u8,
        ((v >> 8) & 0xFF) as u8,
        (v & 0xFF) as u8,
    ]
}

/// The packed form of a break window.
pub open spec fn spec_break_bytes(b: Break) -> Seq<u8> {
    spec_pack_bytes(b.start@ as u64, b.end@ as u64)
}

/// The 17-bit start field of five packed bytes.
pub open spec fn spec_unpack_start(b: Seq<u8>) -> u64 {
    ((b[0] as u64) << 9) | ((b[1] as u64) << 1) | ((b[2] as u64) >> 7)
}

/// The 17-bit end field of five packed bytes.
pub open spec fn spec_unpack_end(b: Seq<u8>) -> u64 {
    (((b[2] as u64) & 1) << 16) | ((b[3] as u64) << 8) | (b[4] as u64)
}

/// Five packed bytes are canonical when both seconds fields are in range and
/// the six unused bits are clear; exactly these blocks survive a decode
/// followed by an encode unchanged.
pub open spec fn spec_canonical_break_bytes(b: Seq<u8>) -> bool {
    &&& spec_unpack_start(b) < 86400
    &&& spec_unpack_end(b) < 86400
    &&& b[2] & 0x7E == 0
}

/// A masked byte fits in eight bits.
proof fn lemma_mask_ff(x: u64)
    ensures
        x & 0xFF < 256,
{
    assert(x & 0xFF < 256) by (bit_vector);
}

/// Unpacked 17-bit fields are smaller than two to the seventeenth.
proof fn lemma_unpack_bounds(b0: u64, b1: u64, b2: u64, b3: u64, b4: u64)
    requires
        b0 < 256,
        b1 < 256,
        b2 < 256,
        b3 < 256,
        b4 < 256,
    ensures
        (b0 << 9) | (b1 << 1) | (b2 >> 7) < 0x20000,
        ((b2 & 1) << 16) | (b3 << 8) | b4 < 0x20000,
{
    assert((b0 << 9) | (b1 << 1) | (b2 >> 7) < 0x20000 && ((b2 & 1) << 16) | (b3 << 8) | b4
        < 0x20000) by (bit_vector)
        requires
            b0 < 256 && b1 < 256 && b2 < 256 && b3 < 256 && b4 < 256,
    ;
}

/// Unpacking the five packed bytes of two 17-bit fields gives the fields back.
proof fn lemma_pack_then_unpack(s: u64, e: u64)
    requires
        s < 86400,
        e < 86400,
    ensures
        spec_unpack_start(spec_pack_bytes(s, e)) == s,
        spec_unpack_end(spec_pack_bytes(s, e)) == e,
{
    let v: u64 = (s << 23) | e;
    assert(((((v >> 32) & 0xFF) << 9) | (((v >> 24) & 0xFF) << 1) | (((v >> 16) & 0xFF) >> 7)
        == s) && (((((v >> 16) & 0xFF) & 1) << 16) | (((v >> 8) & 0xFF) << 8) | (v & 0xFF)
        == e)) by (bit_vector)
        requires
            s < 86400 && e < 86400 && v == (s << 23) | e,
    ;
    let bytes = spec_pack_bytes(s, e);
    lemma_mask_ff(v >> 32);
    lemma_mask_ff(v >> 24);
    lemma_mask_ff(v >> 16);
    lemma_mask_ff(v >> 8);
    lemma_mask_ff(v);
    assert(bytes[0] as u64 == (v >> 32) & 0xFF);
    assert(bytes[1] as u64 == (v >> 24) & 0xFF);
    assert(bytes[2] as u64 == (v >> 16) & 0xFF);
    assert(bytes[3] as u64 == (v >> 8) & 0xFF);
    assert(bytes[4] as u64 == v & 0xFF);
}

/// Packing the two fields of canonical packed bytes gives the bytes back.
proof fn lemma_unpack_then_pack(b0: u64, b1: u64, b2: u64, b3: u64, b4: u64)
    requires
        b0 < 256,
        b1 < 256,
        b2 < 256,
        b3 < 256,
        b4 < 256,
        b2 & 0x7E == 0,
    ensures
        ({
            let s = (b0 << 9) | (b1 << 1) | (b2 >> 7);
            let e = ((b2 & 1) << 16) | (b3 << 8) | b4;
            let v = (s << 23) | e;
            &&& (v >> 32) & 0xFF == b0
            &&& (v >> 24) & 0xFF == b1
            &&& (v >> 16) & 0xFF == b2
            &&& (v >> 8) & 0xFF == b3
            &&& v & 0xFF == b4
        }),
{
    let s: u64 = (b0 << 9) | (b1 << 1) | (b2 >> 7);
    let e: u64 = ((b2 & 1) << 16) | (b3 << 8) | b4;
    let v: u64 = (s << 23) | e;
    assert((v >> 32) & 0xFF == b0 && (v >> 24) & 0xFF == b1 && (v >> 16) & 0xFF == b2 && (v
        >> 8) & 0xFF == b3 && v & 0xFF == b4) by (bit_vector)
        requires
            b0 < 256 && b1 < 256 && b2 < 256 && b3 < 256 && b4 < 256 && b2 & 0x7E == 0 && s
                == (b0 << 9) | (b1 << 1) | (b2 >> 7) && e == ((b2 & 1) << 16) | (b3 << 8)
                | b4 && v == (s << 23) | e,
    ;
}

impl Break {
    /// Both times of day lie within one day.
    pub open spec fn wf(&self) -> bool {
        self.start.wf() && self.end.wf()
    }

    /// Builds a break window from two hour-minute-second triples; fields out
    /// of range are rejected.
    pub fn new(sh: u8, sm: u8, ss: u8, eh: u8, em: u8, es: u8) -> (r: Option<Break>)
        ensures
            r is Some <==> sh < 24 && sm < 60 && ss < 60 && eh < 24 && em < 60 && es < 60,
            r matches Some(b) ==> b.wf() && b.start@ == sh as int * 3600 + sm as int * 60
                + ss as int && b.end@ == eh as int * 3600 + em as int * 60 + es as int,
    {
        let start: Time = match Time::from_hms(sh, sm, ss) {
            Some(t) => t,
            None => {
                return None;
            },
        };
        let end: Time = match Time::from_hms(eh, em, es) {
            Some(t) => t,
            None => {
                return None;
            },
        };
        Some(Break { start, end })
    }

    /// The start and end times as hour-minute-second triples.
    pub fn to_hms_pair(&self) -> (r: ((u8, u8, u8), (u8, u8, u8)))
        requires
            self.wf(),
        ensures
            r.0.0 as int == self.start@ / 3600,
            r.0.1 as int == (self.start@ / 60) % 60,
            r.0.2 as int == self.start@ % 60,
            r.1.0 as int == self.end@ / 3600,
            r.1.1 as int == (self.end@ / 60) % 60,
            r.1.2 as int == self.end@ % 60,
    {
        (self.start.to_hms(), self.end.to_hms())
    }

    /// Builds a break window from two hour-minute-second triples.
    pub fn from_hms_pair(start: (u8, u8, u8), end: (u8, u8, u8)) -> (r: Option<Break>)
        ensures
            r is Some <==> start.0 < 24 && start.1 < 60 && start.2 < 60 && end.0 < 24
                && end.1 < 60 && end.2 < 60,
            r matches Some(b) ==> b.wf() && b.start@ == start.0 as int * 3600
                + start.1 as int * 60 + start.2 as int && b.end@ == end.0 as int * 3600
                + end.1 as int * 60 + end.2 as int,
    {
        Break::new(start.0, start.1, start.2, end.0, end.1, end.2)
    }

    /// Packs the two times into their five-byte form.
    pub fn to_bytes(&self) -> (r: [u8; 5])
        ensures
            r@ == spec_break_bytes(*self),
    {
        let s: u64 = self.start.elapsed_seconds() as u64;
        let e: u64 = self.end.elapsed_seconds() as u64;
        let v: u64 = (s << 23u64) | e;
        proof {
            lemma_mask_ff(v >> 32);
            lemma_mask_ff(v >> 24);
            lemma_mask_ff(v >> 16);
            lemma_mask_ff(v >> 8);
            lemma_mask_ff(v);
        }
        let r: [u8; 5] = [
            ((v >> 32u64) & 0xFF) as u8,
            ((v >> 24u64) & 0xFF) as u8,
            ((v >> 16u64) & 0xFF) as u8,
            ((v >> 8u64) & 0xFF) as u8,
            (v & 0xFF) as u8,
        ];
        proof {
            assert(r@ =~= spec_break_bytes(*self));
        }
        r
    }

    /// Unpacks a five-byte block into a break window, reducing each seconds
    /// field modulo one day.
    pub fn from_bytes(bytes: &[u8]) -> (r: Option<Break>)
        ensures
            r is Some <==> bytes@.len() == 5,
            r matches Some(b) ==> b.wf() && b.start@ == spec_unpack_start(bytes@) as int
                % 86400 && b.end@ == spec_unpack_end(bytes@) as int % 86400,
    {
        if bytes.len() != 5 {
            return None;
        }
        let b0: u64 = *slice_index_get(bytes, 0) as u64;
        let b1: u64 = *slice_index_get(bytes, 1) as u64;
        let b2: u64 = *slice_index_get(bytes, 2) as u64;
        let b3: u64 = *slice_index_get(bytes, 3) as u64;
        let b4: u64 = *slice_index_get(bytes, 4) as u64;
        proof {
            lemma_unpack_bounds(b0, b1, b2, b3, b4);
        }
        let start_raw: u64 = (b0 << 9u64) | (b1 << 1u64) | (b2 >> 7u64);
        let end_raw: u64 = ((b2 & 1) << 16u64) | (b3 << 8u64) | b4;
        Some(
            Break {
                start: Time::from_seconds(start_raw as u32),
                end: Time::from_seconds(end_raw as u32),
            },
        )
    }
}

/// Packing a break window and unpacking the five bytes reproduces both times
/// of day exactly, for every pair of in-range elapsed-seconds values.
pub proof fn lemma_break_pack_roundtrip(b: Break)
    requires
        b.wf(),
    ensures
        spec_unpack_start(spec_break_bytes(b)) as int % 86400 == b.start@,
        spec_unpack_end(spec_break_bytes(b)) as int % 86400 == b.end@,
{
    lemma_pack_then_unpack(b.start@ as u64, b.end@ as u64);
}

/// Unpacking canonical five-byte blocks and packing the resulting window
/// reproduces the bytes exactly.
pub proof fn lemma_break_unpack_roundtrip(bytes: Seq<u8>, b: Break)
    requires
        bytes.len() == 5,
        spec_canonical_break_bytes(bytes),
        b.start@ == spec_unpack_start(bytes) as int % 86400,
        b.end@ == spec_unpack_end(bytes) as int % 86400,
    ensures
        spec_break_bytes(b) =~= bytes,
{
    let b0: u64 = bytes[0] as u64;
    let b1: u64 = bytes[1] as u64;
    let x2: u8 = bytes[2];
    let b2: u64 = bytes[2] as u64;
    let b3: u64 = bytes[3] as u64;
    let b4: u64 = bytes[4] as u64;
    lemma_unpack_bounds(b0, b1, b2, b3, b4);
    assert(b2 & 0x7E == 0) by (bit_vector)
        requires
            x2 & 0x7E == 0 && b2 == x2 as u64,
    ;
    lemma_unpack_then_pack(b0, b1, b2, b3, b4);
}

/// One weekday's selection of active break windows: bit 7, the most
/// significant, stands for break 0 down to bit 0 for break 7.
#[derive(Clone, Copy, Debug)]
pub struct DailySchedule {
    data: u8,
}

/// The weight of the schedule bit that stands for the break with this index.
pub open spec fn spec_bit_weight(i: int) -> int {
    if i == 0 {
        128int
    } else if i == 1 {
        64int
    } else if i == 2 {
        32int
    } else if i == 3 {
        16int
    } else if i == 4 {
        8int
    } else if i == 5 {
        4int
    } else if i == 6 {
        2int
    } else {
        1int
    }
}

/// Whether the schedule byte has the bit for the break with this index set.
pub open spec fn spec_schedule_bit(data: u8, i: int) -> bool {
    (data as int / spec_bit_weight(i)) % 2 == 1
}

/// The schedule byte selecting exactly the breaks marked in the given list.
pub open spec fn spec_bools_to_byte(b: Seq<bool>) -> int {
    (if b[0] {
        128int
    } else {
        0int
    }) + (if b[1] {
        64int
    } else {
        0int
    }) + (if b[2] {
        32int
    } else {
        0int
    }) + (if b[3] {
        16int
    } else {
        0int
    }) + (if b[4] {
        8int
    } else {
        0int
    }) + (if b[5] {
        4int
    } else {
        0int
    }) + (if b[6] {
        2int
    } else {
        0int
    }) + (if b[7] {
        1int
    } else {
        0int
    })
}

impl DailySchedule {
    /// The raw schedule byte.
    pub closed spec fn view(&self) -> u8 {
        self.data
    }

    /// Wraps a raw schedule byte.
    pub fn from_byte(byte: &u8) -> (r: DailySchedule)
        ensures
            r@ == byte,
    {
        DailySchedule { data: *byte }
    }

    /// The raw schedule byte.
    pub fn to_byte(&self) -> (r: u8)
        ensures
            r == self@,
    {
        self.data
    }

    /// One flag per break index, true where the break is active on this day.
    pub fn to_bools(&self) -> (r: [bool; 8])
        ensures
            forall|i: int| 0 <= i < 8 ==> r@[i] == spec_schedule_bit(self@, i),
    {
        let d: u8 = self.data;
        let r: [bool; 8] = [
            (d / 128) % 2 == 1,
            (d / 64) % 2 == 1,
            (d / 32) % 2 == 1,
            (d / 16) % 2 == 1,
            (d / 8) % 2 == 1,
            (d / 4) % 2 == 1,
            (d / 2) % 2 == 1,
            d % 2 == 1,
        ];
        proof {
            assert(forall|i: int| 0 <= i < 8 ==> r@[i] == spec_schedule_bit(self@, i)) by {
                assert(r@[7] == ((d as int) % 2 == 1));
                assert(spec_bit_weight(7) == 1);
            }
        }
        r
    }

    /// The schedule byte selecting exactly the breaks marked in the list.
    pub fn from_bools(bools: [bool; 8]) -> (r: DailySchedule)
        ensures
            r@ as int == spec_bools_to_byte(bools@),
    {
        let v: u8 = (if bools[0] {
            128
        } else {
            0
        }) + (if bools[1] {
            64
        } else {
            0
        }) + (if bools[2] {
            32
        } else {
            0
        }) + (if bools[3] {
            16
        } else {
            0
        }) + (if bools[4] {
            8
        } else {
            0
        }) + (if bools[5] {
            4
        } else {
            0
        }) + (if bools[6] {
            2
        } else {
            0
        }) + (if bools[7] {
            1
        } else {
            0
        });
        DailySchedule { data: v }
    }
}

/// The byte built from break flags has exactly those bits set.
pub proof fn lemma_schedule_bits(b: Seq<bool>)
    requires
        b.len() == 8,
    ensures
        forall|i: int|
            0 <= i < 8 ==> spec_schedule_bit(spec_bools_to_byte(b) as u8, i) == b[i],
{
    let v: int = spec_bools_to_byte(b);
    assert(0 <= v < 256);
    assert forall|i: int| 0 <= i < 8 implies spec_schedule_bit(v as u8, i) == b[i] by {
        assert(v as u8 as int == v);
    }
}

/// The weekly timetable: eight break windows and one schedule byte for each
/// weekday Monday through Friday.
#[derive(Clone, Debug)]
pub struct Timetable {
    days: Vec<DailySchedule>,
    breaks: Vec<Break>,
}

impl Timetable {
    /// The eight break windows, in break-index order.
    pub closed spec fn breaks_view(&self) -> Seq<Break> {
        self.breaks@
    }

    /// The five schedule bytes, in Monday-through-Friday order.
    pub closed spec fn days_view(&self) -> Seq<u8> {
        self.days@.map_values(|d: DailySchedule| d@)
    }

    /// Exactly eight breaks with in-range times, and exactly five days.
    pub open spec fn wf(&self) -> bool {
        &&& self.breaks_view().len() == 8
        &&& self.days_view().len() == 5
        &&& forall|k: int| 0 <= k < 8 ==> (#[trigger] self.breaks_view()[k]).wf()
    }
}

/// The 45-byte wire form of a timetable: eight packed break windows followed
/// by the five daily schedule bytes.
pub open spec fn spec_tt_bytes(tt: Timetable) -> Seq<u8> {
    Seq::new(
        45,
        |i: int|
            if i < 40 {
                spec_break_bytes(tt.breaks_view()[i / 5])[i % 5]
            } else {
                tt.days_view()[i - 40]
            },
    )
}

/// The timetable holds exactly the values decoded from the 45 bytes: each
/// break window's two seconds fields reduced modulo one day, and each
/// schedule byte taken as it stands.
pub open spec fn spec_tt_decodes(tt: Timetable, bytes: Seq<u8>) -> bool {
    &&& tt.wf()
    &&& forall|k: int|
        0 <= k < 8 ==> (#[trigger] tt.breaks_view()[k]).start@ == spec_unpack_start(
            bytes.subrange(5 * k, 5 * k + 5),
        ) as int % 86400 && tt.breaks_view()[k].end@ == spec_unpack_end(
            bytes.subrange(5 * k, 5 * k + 5),
        ) as int % 86400
    &&& forall|d: int| 0 <= d < 5 ==> tt.days_view()[d] == bytes[40 + d]
}

impl Timetable {
    /// Decodes a 45-byte blob; blobs of any other length are rejected, and
    /// every 45-byte blob is accepted.
    pub fn from_bytes(bytes: &[u8]) -> (r: Option<Timetable>)
        ensures
            r is Some <==> bytes@.len() == 45,
            r matches Some(tt) ==> spec_tt_decodes(tt, bytes@),
    {
        if bytes.len() != 45 {
            return None;
        }
        let mut breaks: Vec<Break> = Vec::new();
        let mut k: usize = 0;
        while k < 8
            invariant
                bytes@.len() == 45,
                k <= 8,
                breaks@.len() == k,
                forall|j: int|
                    0 <= j < k ==> (#[trigger] breaks@[j]).wf() && breaks@[j].start@
                        == spec_unpack_start(bytes@.subrange(5 * j, 5 * j + 5)) as int % 86400
                        && breaks@[j].end@ == spec_unpack_end(
                        bytes@.subrange(5 * j, 5 * j + 5),
                    ) as int % 86400,
            decreases 8 - k,
        {
            let chunk: &[u8] = slice_subrange(bytes, 5 * k, 5 * k + 5);
            match Break::from_bytes(chunk) {
                Some(b) => breaks.push(b),
                None => {
                    return None;
                },
            }
            k += 1;
        }
        let mut days: Vec<DailySchedule> = Vec::new();
        let mut d: usize = 0;
        while d < 5
            invariant
                bytes@.len() == 45,
                d <= 5,
                days@.len() == d,
                forall|j: int| 0 <= j < d ==> (#[trigger] days@[j])@ == bytes@[40 + j],
            decreases 5 - d,
        {
            days.push(DailySchedule::from_byte(slice_index_get(bytes, 40 + d)));
            d += 1;
        }
        let tt = Timetable { days, breaks };
        proof {
            assert(tt.days_view().len() == 5);
            assert(forall|j: int| 0 <= j < 5 ==> tt.days_view()[j] == (#[trigger] tt.days@[j])@);
        }
        Some(tt)
    }

    /// Encodes the timetable into its 45-byte wire form.
    pub fn to_bytes(&self) -> (r: Vec<u8>)
        requires
            self.wf(),
        ensures
            r@ == spec_tt_bytes(*self),
    {
        let mut out: Vec<u8> = Vec::new();
        let mut k: usize = 0;
        while k < 8
            invariant
                self.wf(),
                k <= 8,
                out@.len() == 5 * k,
                forall|i: int|
                    0 <= i < 5 * k ==> out@[i] == spec_break_bytes(
                        #[trigger] self.breaks_view()[i / 5],
                    )[i % 5],
            decreases 8 - k,
        {
            let bb: [u8; 5] = self.breaks[k].to_bytes();
            let mut j: usize = 0;
            while j < 5
                invariant
                    self.wf(),
                    k < 8,
                    j <= 5,
                    bb@ == spec_break_bytes(self.breaks_view()[k as int]),
                    out@.len() == 5 * k + j,
                    forall|i: int|
                        0 <= i < 5 * k + j ==> out@[i] == spec_break_bytes(
                            #[trigger] self.breaks_view()[i / 5],
                        )[i % 5],
                decreases 5 - j,
            {
                out.push(bb[j]);
                j += 1;
            }
            k += 1;
        }
        let mut d: usize = 0;
        while d < 5
            invariant
                self.wf(),
                d <= 5,
                out@.len() == 40 + d,
                forall|i: int|
                    0 <= i < 40 ==> out@[i] == spec_break_bytes(
                        #[trigger] self.breaks_view()[i / 5],
                    )[i % 5],
                forall|i: int| 40 <= i < 40 + d ==> out@[i] == self.days_view()[i - 40],
            decreases 5 - d,
        {
            out.push(self.days[d].to_byte());
            d += 1;
        }
        proof {
            assert(out@ =~= spec_tt_bytes(*self));
        }
        out
    }

    /// What the timetable says about one exact second of a weekday: starting
    /// from break index 0, the first active break whose start equals the time
    /// signals a break beginning, the first whose end equals it signals a
    /// break ending; otherwise, and on Saturday and Sunday, nothing.
    pub fn action(&self, time: &Time, day: &Day) -> (r: Option<bool>)
        requires
            self.wf(),
        ensures
            r == spec_action(*self, time@, *day),
    {
        let n: u8 = day.as_day_number();
        if n >= 5 {
            return None;
        }
        let sched: u8 = self.days[n as usize].to_byte();
        let mut i: usize = 0;
        while i < 8
            invariant
                self.wf(),
                n < 5,
                n as int == day_index(*day),
                sched == self.days_view()[n as int],
                i <= 8,
                spec_action_from(*self, time@, n as int, 0) == spec_action_from(
                    *self,
                    time@,
                    n as int,
                    i as int,
                ),
            decreases 8 - i,
        {
            let w: u8 = bit_weight(i);
            if (sched / w) % 2 == 1 {
                if self.breaks[i].start == *time {
                    proof {
                        Time::lemma_eq_is_view_eq(self.breaks_view()[i as int].start, *time);
                    }
                    return Some(true);
                }
                if self.breaks[i].end == *time {
                    proof {
                        Time::lemma_eq_is_view_eq(self.breaks_view()[i as int].end, *time);
                        Time::lemma_eq_is_view_eq(self.breaks_view()[i as int].start, *time);
                    }
                    return Some(false);
                }
            }
            proof {
                Time::lemma_eq_is_view_eq(self.breaks_view()[i as int].start, *time);
                Time::lemma_eq_is_view_eq(self.breaks_view()[i as int].end, *time);
            }
            i += 1;
        }
        None
    }
}

/// The weight of the schedule bit for a break index, as an executable value.
fn bit_weight(i: usize) -> (r: u8)
    requires
        i < 8,
    ensures
        r as int == spec_bit_weight(i as int),
        r > 0,
{
    match i {
        0 => 128,
        1 => 64,
        2 => 32,
        3 => 16,
        4 => 8,
        5 => 4,
        6 => 2,
        _ => 1,
    }
}

/// The first decision that the timetable makes at or after break index `i`
/// for second `t` of the weekday with index `d`.
pub open spec fn spec_action_from(tt: Timetable, t: int, d: int, i: int) -> Option<bool>
    decreases 8 - i,
{
    if i < 0 || i >= 8 {
        None
    } else if spec_schedule_bit(tt.days_view()[d], i) && tt.breaks_view()[i].start@ == t {
        Some(true)
    } else if spec_schedule_bit(tt.days_view()[d], i) && tt.breaks_view()[i].end@ == t {
        Some(false)
    } else {
        spec_action_from(tt, t, d, i + 1)
    }
}

/// The decision that the timetable makes at second `t` of a weekday.
pub open spec fn spec_action(tt: Timetable, t: int, day: Day) -> Option<bool> {
    if day_index(day) >= 5 {
        None
    } else {
        spec_action_from(tt, t, day_index(day), 0)
    }
}

/// Decoding 45 bytes whose break blocks are canonical and then encoding the
/// timetable again reproduces the bytes exactly.
pub proof fn lemma_timetable_bytes_roundtrip(bytes: Seq<u8>, tt: Timetable)
    requires
        bytes.len() == 45,
        forall|k: int| 0 <= k < 8 ==> spec_canonical_break_bytes(#[trigger] bytes.subrange(5 * k, 5 * k + 5)),
        spec_tt_decodes(tt, bytes),
    ensures
        spec_tt_bytes(tt) =~= bytes,
{
    assert forall|i: int| 0 <= i < 45 implies spec_tt_bytes(tt)[i] == bytes[i] by {
        if i < 40 {
            let k: int = i / 5;
            let j: int = i % 5;
            assert(0 <= k < 8 && 0 <= j < 5);
            let chunk = bytes.subrange(5 * k, 5 * k + 5);
            lemma_break_unpack_roundtrip(chunk, tt.breaks_view()[k]);
            assert(spec_break_bytes(tt.breaks_view()[k])[j] == chunk[j]);
            assert(chunk[j] == bytes[5 * k + j]);
            assert(5 * k + j == i) by {
                vstd::arithmetic::div_mod::lemma_fundamental_div_mod(i, 5);
            }
        } else {
            assert(tt.days_view()[i - 40] == bytes[i]);
        }
    }
}

/// The loaded configuration: the weekly timetable and the UTC offset in
/// whole hours.
#[derive(Clone, Debug)]
pub struct Configs {
    timetable: Timetable,
    utc_offset: i8,
}

/// Whether the bytes begin with the six-byte magic header of a
/// configuration file.
pub open spec fn spec_magic_ok(bytes: Seq<u8>) -> bool {
    &&& bytes.len() >= 6
    &&& bytes[0] == 77u8
    &&& bytes[1] == 85u8
    &&& bytes[2] == 83u8
    &&& bytes[3] == 73u8
    &&& bytes[4] == 81u8
    &&& bytes[5] == 10u8
}

/// Scans the tagged records of a configuration file from position `i`,
/// carrying the timetable bytes and the offset byte seen so far.  A record
/// tagged 84 (the letter T) holds 45 timetable bytes, one tagged 79 (the
/// letter O) holds one offset byte; each tag must appear exactly once, and
/// unknown tags and truncated records are format errors.
pub open spec fn spec_scan_config(
    bytes: Seq<u8>,
    i: int,
    tt: Option<Seq<u8>>,
    off: Option<u8>,
) -> Result<(Seq<u8>, u8), Error>
    decreases bytes.len() - i,
{
    if i >= bytes.len() {
        if tt is Some && off is Some {
            Ok((tt->0, off->0))
        } else {
            Err(Error::NoTimetableFound)
        }
    } else if bytes[i] == 84u8 {
        if tt is Some {
            Err(Error::InvalidConfigFile)
        } else if i + 46 <= bytes.len() {
            spec_scan_config(bytes, i + 46, Some(bytes.subrange(i + 1, i + 46)), off)
        } else {
            Err(Error::InvalidConfigFile)
        }
    } else if bytes[i] == 79u8 {
        if off is Some {
            Err(Error::InvalidConfigFile)
        } else if i + 2 <= bytes.len() {
            spec_scan_config(bytes, i + 2, tt, Some(bytes[i + 1]))
        } else {
            Err(Error::InvalidConfigFile)
        }
    } else {
        Err(Error::InvalidConfigFile)
    }
}

/// The byte form of a configuration: the magic header, the tagged timetable,
/// then the tagged offset byte.
pub open spec fn spec_config_bytes(c: Configs) -> Seq<u8> {
    seq![77u8, 85u8, 83u8, 73u8, 81u8, 10u8, 84u8] + spec_tt_bytes(c.spec_timetable()) + seq![
        79u8,
        c.spec_utc_offset() as u8,
    ]
}

impl Configs {
    /// The stored timetable.
    pub closed spec fn spec_timetable(&self) -> Timetable {
        self.timetable
    }

    /// The stored UTC offset in whole hours.
    pub closed spec fn spec_utc_offset(&self) -> i8 {
        self.utc_offset
    }

    /// The stored timetable is well formed.
    pub open spec fn wf(&self) -> bool {
        self.spec_timetable().wf()
    }

    /// Builds a configuration directly from a timetable and an offset.
    pub fn from_parts(timetable: Timetable, utc_offset: i8) -> (r: Configs)
        ensures
            r.spec_timetable() == timetable,
            r.spec_utc_offset() == utc_offset,
    {
        Configs { timetable, utc_offset }
    }

    /// Parses a configuration file: the magic header, then the tagged
    /// records, of which each kind must appear exactly once.
    pub fn from_bytes(bytes: &[u8]) -> (r: Result<Configs, Error>)
        ensures
            !spec_magic_ok(bytes@) ==> r == Err::<Configs, Error>(Error::InvalidConfigFile),
            spec_magic_ok(bytes@) ==> match spec_scan_config(bytes@, 6, None, None) {
                Ok(p) => r matches Ok(c) && c.wf() && c.spec_utc_offset() == p.1 as i8
                    && spec_tt_decodes(c.spec_timetable(), p.0),
                Err(e) => r == Err::<Configs, Error>(e),
            },
    {
        if bytes.len() < 6 {
            return Err(Error::InvalidConfigFile);
        }
        if *slice_index_get(bytes, 0) != 77 || *slice_index_get(bytes, 1) != 85
            || *slice_index_get(bytes, 2) != 83 || *slice_index_get(bytes, 3) != 73
            || *slice_index_get(bytes, 4) != 81 || *slice_index_get(bytes, 5) != 10 {
            return Err(Error::InvalidConfigFile);
        }
        let mut timetable: Option<Timetable> = None;
        let ghost mut ttb: Option<Seq<u8>> = None;
        let mut utc_offset: Option<i8> = None;
        let ghost mut offb: Option<u8> = None;
        let mut i: usize = 6;
        while i < bytes.len()
            invariant
                6 <= i <= bytes@.len(),
                spec_scan_config(bytes@, 6, None, None) == spec_scan_config(
                    bytes@,
                    i as int,
                    ttb,
                    offb,
                ),
                timetable is Some <==> ttb is Some,
                timetable matches Some(t) ==> ttb matches Some(tb) && tb.len() == 45
                    && spec_tt_decodes(t, tb),
                utc_offset is Some <==> offb is Some,
                utc_offset matches Some(o) ==> offb matches Some(ob) && o == ob as i8,
            decreases bytes@.len() - i,
        {
            let tag: u8 = *slice_index_get(bytes, i);
            if tag == 84 {
                if timetable.is_some() {
                    return Err(Error::InvalidConfigFile);
                }
                if bytes.len() - i < 46 {
                    return Err(Error::InvalidConfigFile);
                }
                let chunk: &[u8] = slice_subrange(bytes, i + 1, i + 46);
                match Timetable::from_bytes(chunk) {
                    Some(t) => {
                        timetable = Some(t);
                        proof {
                            ttb = Some(chunk@);
                        }
                    },
                    None => {
                        return Err(Error::InvalidConfigFile);
                    },
                }
                i += 46;
            } else if tag == 79 {
                if utc_offset.is_some() {
                    return Err(Error::InvalidConfigFile);
                }
                if bytes.len() - i < 2 {
                    return Err(Error::InvalidConfigFile);
                }
                let ob: u8 = *slice_index_get(bytes, i + 1);
                utc_offset = Some(#[verifier::truncate] (ob as i8));
                proof {
                    offb = Some(ob);
                }
                i += 2;
            } else {
                return Err(Error::InvalidConfigFile);
            }
        }
        match (timetable, utc_offset) {
            (Some(timetable), Some(utc_offset)) => Ok(Configs { timetable, utc_offset }),
            _ => Err(Error::NoTimetableFound),
        }
    }

    /// The stored timetable.
    pub fn timetable(&self) -> (r: &Timetable)
        ensures
            r == self.spec_timetable(),
    {
        &self.timetable
    }

    /// Replaces the stored timetable.
    pub fn set_timetable(&mut self, timetable: Timetable)
        ensures
            final(self).spec_timetable() == timetable,
            final(self).spec_utc_offset() == old(self).spec_utc_offset(),
    {
        self.timetable = timetable;
    }

    /// The stored UTC offset in whole hours.
    pub fn utc_offset(&self) -> (r: i8)
        ensures
            r == self.spec_utc_offset(),
    {
        self.utc_offset
    }

    /// Stores a new UTC offset when it lies in the accepted range of -12
    /// through 11 hours, and reports whether it did.
    pub fn set_utc_offset(&mut self, utc_offset: i8) -> (r: bool)
        ensures
            r <==> -12 <= utc_offset < 12,
            r ==> final(self).spec_utc_offset() == utc_offset && final(self).spec_timetable()
                == old(self).spec_timetable(),
            !r ==> *final(self) == *old(self),
    {
        if -12 <= utc_offset && utc_offset < 12 {
            self.utc_offset = utc_offset;
            true
        } else {
            false
        }
    }

    /// Serializes the configuration: the magic header, the tagged timetable,
    /// then the tagged offset byte, in that fixed order.
    pub fn write(&self) -> (r: Vec<u8>)
        requires
            self.wf(),
        ensures
            r@ == spec_config_bytes(*self),
    {
        let mut out: Vec<u8> = Vec::new();
        out.push(77);
        out.push(85);
        out.push(83);
        out.push(73);
        out.push(81);
        out.push(10);
        out.push(84);
        let mut tt: Vec<u8> = self.timetable.to_bytes();
        out.append(&mut tt);
        out.push(79);
        out.push(#[verifier::truncate] (self.utc_offset as u8));
        proof {
            assert(out@ =~= spec_config_bytes(*self));
        }
        out
    }
}

/// Writing a configuration and scanning the bytes back reproduces the
/// timetable and the UTC offset exactly, for every stored offset.
pub proof fn lemma_config_write_read(c: Configs)
    requires
        c.wf(),
    ensures
        spec_magic_ok(spec_config_bytes(c)),
        spec_scan_config(spec_config_bytes(c), 6, None, None) matches Ok(p) && p.0
            =~= spec_tt_bytes(c.spec_timetable()) && p.1 as i8 == c.spec_utc_offset()
            && spec_tt_decodes_itself(c.spec_timetable()),
{
    let bytes = spec_config_bytes(c);
    let ttb = spec_tt_bytes(c.spec_timetable());
    assert(bytes.len() == 54);
    assert(bytes[6] == 84u8);
    assert(bytes.subrange(7, 52) =~= ttb);
    assert(bytes[52] == 79u8);
    assert(bytes[53] == c.spec_utc_offset() as u8);
    assert(spec_scan_config(bytes, 6, None, None) == spec_scan_config(
        bytes,
        52,
        Some(ttb),
        None,
    ));
    assert(spec_scan_config(bytes, 52, Some(ttb), None) == spec_scan_config(
        bytes,
        54,
        Some(ttb),
        Some(bytes[53]),
    ));
    let o: i8 = c.spec_utc_offset();
    assert(o as u8 as i8 == o) by (bit_vector);
    lemma_tt_decodes_itself(c.spec_timetable());
}

/// A timetable decodes from its own byte form: the decode relation holds
/// between the timetable and its encoding.
pub open spec fn spec_tt_decodes_itself(tt: Timetable) -> bool {
    spec_tt_decodes(tt, spec_tt_bytes(tt))
}

/// Encoding a well-formed timetable and decoding the bytes gives every break
/// window and every schedule byte back exactly.
pub proof fn lemma_tt_decodes_itself(tt: Timetable)
    requires
        tt.wf(),
    ensures
        spec_tt_decodes_itself(tt),
{
    let bytes = spec_tt_bytes(tt);
    assert forall|k: int| 0 <= k < 8 implies (#[trigger] tt.breaks_view()[k]).start@
        == spec_unpack_start(bytes.subrange(5 * k, 5 * k + 5)) as int % 86400
        && tt.breaks_view()[k].end@ == spec_unpack_end(bytes.subrange(5 * k, 5 * k + 5)) as int
        % 86400 by {
        let b = tt.breaks_view()[k];
        assert(bytes.subrange(5 * k, 5 * k + 5) =~= spec_break_bytes(b)) by {
            assert forall|j: int| 0 <= j < 5 implies bytes.subrange(5 * k, 5 * k + 5)[j]
                == spec_break_bytes(b)[j] by {
                assert(bytes[5 * k + j] == spec_break_bytes(
                    tt.breaks_view()[(5 * k + j) / 5],
                )[(5 * k + j) % 5]);
                assert((5 * k + j) / 5 == k && (5 * k + j) % 5 == j) by {
                    vstd::arithmetic::div_mod::lemma_fundamental_div_mod(5 * k + j, 5);
                    vstd::arithmetic::div_mod::lemma_mod_division_less_than_divisor(5 * k + j, 5);
                }
            }
        }
        lemma_break_pack_roundtrip(b);
    }
    assert forall|d: int| 0 <= d < 5 implies tt.days_view()[d] == bytes[40 + d] by {}
}

/// The start and end seconds of the built-in default break windows.
pub open spec fn spec_default_break(k: int) -> (int, int) {
    if k == 0 {
        (27660int, 28200int)
    } else if k == 1 {
        (30960int, 31200int)
    } else if k == 2 {
        (33960int, 34500int)
    } else if k == 3 {
        (37260int, 37800int)
    } else if k == 4 {
        (40560int, 41100int)
    } else if k == 5 {
        (43860int, 44100int)
    } else if k == 6 {
        (46860int, 48600int)
    } else {
        (51060int, 51600int)
    }
}

/// The built-in default configuration: eight school-day break windows, of
/// which breaks 1 through 5 are enabled Monday through Friday (schedule
/// byte 124), and a UTC offset of two hours.
pub fn default_configs() -> (r: Configs)
    ensures
        r.wf(),
        forall|k: int|
            0 <= k < 8 ==> (#[trigger] r.spec_timetable().breaks_view()[k]).start@
                == spec_default_break(k).0 && r.spec_timetable().breaks_view()[k].end@
                == spec_default_break(k).1,
        forall|d: int| 0 <= d < 5 ==> r.spec_timetable().days_view()[d] == 124u8,
        r.spec_utc_offset() == 2,
{
    let mut breaks: Vec<Break> = Vec::new();
    match (
        Break::new(7, 41, 0, 7, 50, 0),
        Break::new(8, 36, 0, 8, 40, 0),
        Break::new(9, 26, 0, 9, 35, 0),
        Break::new(10, 21, 0, 10, 30, 0),
    ) {
        (Some(b0), Some(b1), Some(b2), Some(b3)) => {
            breaks.push(b0);
            breaks.push(b1);
            breaks.push(b2);
            breaks.push(b3);
        },
        _ => {
        },
    }
    match (
        Break::new(11, 16, 0, 11, 25, 0),
        Break::new(12, 11, 0, 12, 15, 0),
        Break::new(13, 1, 0, 13, 30, 0),
        Break::new(14, 11, 0, 14, 20, 0),
    ) {
        (Some(b4), Some(b5), Some(b6), Some(b7)) => {
            breaks.push(b4);
            breaks.push(b5);
            breaks.push(b6);
            breaks.push(b7);
        },
        _ => {
        },
    }
    let mut days: Vec<DailySchedule> = Vec::new();
    let schedule_byte: u8 = 124;
    days.push(DailySchedule::from_byte(&schedule_byte));
    days.push(DailySchedule::from_byte(&schedule_byte));
    days.push(DailySchedule::from_byte(&schedule_byte));
    days.push(DailySchedule::from_byte(&schedule_byte));
    days.push(DailySchedule::from_byte(&schedule_byte));
    let c = Configs { timetable: Timetable { days, breaks }, utc_offset: 2 };
    proof {
        assert forall|d: int| 0 <= d < 5 implies c.spec_timetable().days_view()[d] == 124u8 by {
            assert(c.spec_timetable().days_view()[d] == (c.spec_timetable().days@[d])@);
        }
    }
    c
}

/// The exact 45 timetable bytes of the default configuration: the eight
/// packed default break windows, then five schedule bytes of 124.
pub open spec fn spec_default_tt_bytes() -> Seq<u8> {
    Seq::new(
        45,
        |i: int|
            if i < 40 {
                spec_pack_bytes(
                    spec_default_break(i / 5).0 as u64,
                    spec_default_break(i / 5).1 as u64,
                )[i % 5]
            } else {
                124u8
            },
    )
}

/// The exact 54 bytes of the built-in default configuration file: the
/// magic header, the tagged timetable record, then the tagged offset
/// record, in that fixed order.
pub open spec fn spec_default_config_bytes() -> Seq<u8> {
    seq![77u8, 85u8, 83u8, 73u8, 81u8, 10u8, 84u8] + spec_default_tt_bytes() + seq![79u8, 2u8]
}

/// The byte form of the built-in default configuration, written to disk when
/// no configuration file exists yet.
#[verifier::rlimit(100)]
pub fn default_config_bytes() -> (r: Vec<u8>)
    ensures
        r@ == spec_default_config_bytes(),
        r@.len() == 54,
        spec_magic_ok(r@),
        spec_scan_config(r@, 6, None, None) matches Ok(p) && p.1 == 2 && (forall|k: int|
            0 <= k < 8 ==> spec_unpack_start(p.0.subrange(5 * k, 5 * k + 5)) as int % 86400
                == (#[trigger] spec_default_break(k)).0 && spec_unpack_end(
                p.0.subrange(5 * k, 5 * k + 5),
            ) as int % 86400 == spec_default_break(k).1) && (forall|i: int|
            40 <= i < 45 ==> #[trigger] p.0[i] == 124u8),
{
    let c: Configs = default_configs();
    let r: Vec<u8> = c.write();
    proof {
        lemma_config_write_read(c);
        let tt = c.spec_timetable();
        let p = spec_scan_config(r@, 6, None, None)->Ok_0;
        assert(p.0 == spec_tt_bytes(tt));
        let pb: u8 = p.1;
        assert(pb as i8 == 2i8 ==> pb == 2) by (bit_vector);
        assert forall|k: int|
            0 <= k < 8 implies spec_unpack_start(p.0.subrange(5 * k, 5 * k + 5)) as int % 86400
            == (#[trigger] spec_default_break(k)).0 && spec_unpack_end(
            p.0.subrange(5 * k, 5 * k + 5),
        ) as int % 86400 == spec_default_break(k).1 by {
            assert(tt.breaks_view()[k].start@ == spec_unpack_start(
                spec_tt_bytes(tt).subrange(5 * k, 5 * k + 5),
            ) as int % 86400);
        }
        assert forall|i: int| 40 <= i < 45 implies #[trigger] p.0[i] == 124u8 by {
            assert(spec_tt_bytes(tt)[i] == tt.days_view()[i - 40]);
        }
        lemma_default_tt_bytes(tt);
        assert(r@ =~= spec_default_config_bytes());
    }
    r
}

/// A timetable holding the default break windows and schedule bytes
/// encodes to exactly the default timetable bytes.
proof fn lemma_default_tt_bytes(tt: Timetable)
    requires
        tt.wf(),
        forall|k: int|
            0 <= k < 8 ==> (#[trigger] tt.breaks_view()[k]).start@ == spec_default_break(k).0
                && tt.breaks_view()[k].end@ == spec_default_break(k).1,
        forall|d: int| 0 <= d < 5 ==> tt.days_view()[d] == 124u8,
    ensures
        spec_tt_bytes(tt) =~= spec_default_tt_bytes(),
{
    assert forall|i: int|
        0 <= i < 45 implies spec_tt_bytes(tt)[i] == spec_default_tt_bytes()[i] by {
        if i < 40 {
            let k: int = i / 5;
            assert(0 <= k < 8);
            let b = tt.breaks_view()[k];
            assert(spec_break_bytes(b) == spec_pack_bytes(
                spec_default_break(k).0 as u64,
                spec_default_break(k).1 as u64,
            ));
        } else {
            assert(spec_tt_bytes(tt)[i] == tt.days_view()[i - 40]);
        }
    }
}

/// The fields of a well-formed clock text lie between zero and 255.
proof fn lemma_hms_bounds(s: Seq<char>)
    ensures
        spec_hms_from_text(s) matches Some(t) ==> 0 <= t.0 <= 255 && 0 <= t.1 <= 255 && 0
            <= t.2 <= 255,
{
    crate::text::lemma_find_char_bounds(s, 0, ':');
    let i = spec_find_char(s, 0, ':');
    if i < s.len() {
        crate::text::lemma_find_char_bounds(s, i + 1, ':');
        let j = spec_find_char(s, i + 1, ':');
        if j < s.len() {
            crate::text::lemma_parse_digits_nonneg(s.subrange(0, i));
            crate::text::lemma_parse_digits_nonneg(s.subrange(i + 1, j));
            crate::text::lemma_parse_digits_nonneg(s.subrange(j + 1, s.len() as int));
        }
    }
}

/// The hour, minute and second fields of a clock text: the digits before
/// the first colon, between the first and the second, and after the second,
/// each read as a decimal number of at most one byte.
pub open spec fn spec_hms_from_text(s: Seq<char>) -> Option<(int, int, int)> {
    let i = spec_find_char(s, 0, ':');
    if i >= s.len() {
        None
    } else {
        let j = spec_find_char(s, i + 1, ':');
        if j >= s.len() {
            None
        } else {
            let h = spec_parse_digits(s.subrange(0, i));
            let m = spec_parse_digits(s.subrange(i + 1, j));
            let sec = spec_parse_digits(s.subrange(j + 1, s.len() as int));
            match (h, m, sec) {
                (Some(hv), Some(mv), Some(sv)) => if hv <= 255 && mv <= 255 && sv <= 255 {
                    Some((hv, mv, sv))
                } else {
                    None
                },
                _ => None,
            }
        }
    }
}

impl Break {
    /// Reads a clock text of hours, minutes and seconds separated by
    /// colons into its three fields.
    pub fn time_from_str(string: &str) -> (r: Option<(u8, u8, u8)>)
        ensures
            ({
                match spec_hms_from_text(string@) {
                    Some(t) => r == Some((t.0 as u8, t.1 as u8, t.2 as u8)),
                    None => r is None,
                }
            }),
    {
        let n: usize = string.unicode_len();
        let i: usize = find_char(string, 0, ':');
        if i >= n {
            return None;
        }
        let j: usize = find_char(string, i + 1, ':');
        if j >= n {
            return None;
        }
        let h: u8 = match parse_u8_range(string, 0, i) {
            Some(v) => v,
            None => {
                return None;
            },
        };
        let m: u8 = match parse_u8_range(string, i + 1, j) {
            Some(v) => v,
            None => {
                return None;
            },
        };
        let s: u8 = match parse_u8_range(string, j + 1, n) {
            Some(v) => v,
            None => {
                return None;
            },
        };
        Some((h, m, s))
    }

    /// The window's two times of day that a two-column row of clock texts
    /// denotes, as elapsed seconds, when both texts read as valid times.
    pub open spec fn spec_from_csv(row: Seq<CsvObject>) -> Option<(int, int)> {
        if row.len() == 2 && row[0] is String && row[1] is String {
            let s0 = row[0]->String_0;
            let s1 = row[1]->String_0;
            match (spec_hms_from_text(s0@), spec_hms_from_text(s1@)) {
                (Some(a), Some(b)) => if a.0 < 24 && a.1 < 60 && a.2 < 60 && b.0 < 24 && b.1
                    < 60 && b.2 < 60 {
                    Some((a.0 * 3600 + a.1 * 60 + a.2, b.0 * 3600 + b.1 * 60 + b.2))
                } else {
                    None
                },
                _ => None,
            }
        } else {
            None
        }
    }

    /// Reads a two-column row of clock texts into a break window.
    pub fn from_csv(csv: Vec<CsvObject>) -> (r: Option<Break>)
        ensures
            r is Some <==> Break::spec_from_csv(csv@) is Some,
            r matches Some(b) ==> b.wf() && (Break::spec_from_csv(csv@) matches Some(v)
                && b.start@ == v.0 && b.end@ == v.1),
    {
        if csv.len() != 2 {
            return None;
        }
        let start_text: &str = match csv[0].as_string() {
            Some(s) => s,
            None => {
                return None;
            },
        };
        let end_text: &str = match csv[1].as_string() {
            Some(s) => s,
            None => {
                return None;
            },
        };
        let start: (u8, u8, u8) = match Break::time_from_str(start_text) {
            Some(t) => t,
            None => {
                return None;
            },
        };
        let end: (u8, u8, u8) = match Break::time_from_str(end_text) {
            Some(t) => t,
            None => {
                return None;
            },
        };
        proof {
            lemma_hms_bounds(start_text@);
            lemma_hms_bounds(end_text@);
        }
        Break::new(start.0, start.1, start.2, end.0, end.1, end.2)
    }

    /// The clock text of a time of day given as elapsed seconds.
    pub open spec fn spec_time_text(t: int) -> Seq<char> {
        spec_dec_pad(t / 3600, 2) + seq![':'] + spec_dec_pad((t / 60) % 60, 2) + seq![':']
            + spec_dec_pad(t % 60, 2)
    }

    /// The window as a two-column row of clock texts.
    pub fn to_csv(&self) -> (r: Vec<CsvObject>)
        requires
            self.wf(),
        ensures
            r@.len() == 2,
            r@[0] matches CsvObject::String(s) && s@ == Break::spec_time_text(self.start@),
            r@[1] matches CsvObject::String(s) && s@ == Break::spec_time_text(self.end@),
    {
        let mut out: Vec<CsvObject> = Vec::new();
        out.push(CsvObject::String(time_text(&self.start)));
        out.push(CsvObject::String(time_text(&self.end)));
        out
    }
}

/// The clock text of a time of day.
fn time_text(t: &Time) -> (r: String)
    requires
        t.wf(),
    ensures
        r@ == Break::spec_time_text(t@),
{
    let hms: (u8, u8, u8) = t.to_hms();
    let mut out: String = String::new();
    append_u64_pad(&mut out, hms.0 as u64, 2);
    push_char(&mut out, ':');
    append_u64_pad(&mut out, hms.1 as u64, 2);
    push_char(&mut out, ':');
    append_u64_pad(&mut out, hms.2 as u64, 2);
    proof {
        assert(out@ =~= Break::spec_time_text(t@));
    }
    out
}

/// The booleans found among a row of values, in order, skipping the rest.
pub open spec fn spec_collect_bools(row: Seq<CsvObject>) -> Seq<bool>
    decreases row.len(),
{
    if row.len() == 0 {
        Seq::empty()
    } else {
        (match row[0] {
            CsvObject::Bool(b) => seq![b],
            _ => Seq::<bool>::empty(),
        }) + spec_collect_bools(row.drop_first())
    }
}

impl DailySchedule {
    /// The day as eight boolean cells, break 0 first.
    pub fn to_csv(&self) -> (r: Vec<CsvObject>)
        ensures
            r@.len() == 8,
            forall|i: int|
                0 <= i < 8 ==> #[trigger] r@[i] == CsvObject::Bool(spec_schedule_bit(self@, i)),
    {
        let bools: [bool; 8] = self.to_bools();
        let mut out: Vec<CsvObject> = Vec::new();
        out.push(CsvObject::Bool(bools[0]));
        out.push(CsvObject::Bool(bools[1]));
        out.push(CsvObject::Bool(bools[2]));
        out.push(CsvObject::Bool(bools[3]));
        out.push(CsvObject::Bool(bools[4]));
        out.push(CsvObject::Bool(bools[5]));
        out.push(CsvObject::Bool(bools[6]));
        out.push(CsvObject::Bool(bools[7]));
        out
    }

    /// Reads a row of values into a schedule byte: the boolean cells of the
    /// row, of which there must be exactly eight, select the breaks.
    pub fn from_csv(csv: &Vec<CsvObject>) -> (r: Option<DailySchedule>)
        ensures
            r is Some <==> spec_collect_bools(csv@).len() == 8,
            r matches Some(d) ==> d@ as int == spec_bools_to_byte(spec_collect_bools(csv@)),
    {
        let bools: Vec<bool> = collect_bools(csv);
        if bools.len() != 8 {
            return None;
        }
        let arr: [bool; 8] = [
            bools[0],
            bools[1],
            bools[2],
            bools[3],
            bools[4],
            bools[5],
            bools[6],
            bools[7],
        ];
        proof {
            assert(arr@ =~= spec_collect_bools(csv@));
        }
        Some(DailySchedule::from_bools(arr))
    }
}

/// Collects the boolean cells of a row, in order.
fn collect_bools(row: &Vec<CsvObject>) -> (r: Vec<bool>)
    ensures
        r@ == spec_collect_bools(row@),
{
    let mut out: Vec<bool> = Vec::new();
    proof {
        assert(row@.skip(0int) =~= row@);
    }
    let mut i: usize = 0;
    while i < row.len()
        invariant
            i <= row@.len(),
            out@ + spec_collect_bools(row@.skip(i as int)) =~= spec_collect_bools(row@),
        decreases row@.len() - i,
    {
        proof {
            assert(row@.skip(i as int)[0] == row@[i as int]);
            assert(row@.skip(i as int).drop_first() =~= row@.skip(i + 1int));
        }
        match &row[i] {
            CsvObject::Bool(b) => {
                out.push(*b);
            },
            _ => {
            },
        }
        i += 1;
        proof {
            assert(out@ + spec_collect_bools(row@.skip(i as int)) =~= spec_collect_bools(
                row@,
            ));
        }
    }
    proof {
        assert(spec_collect_bools(row@.skip(row@.len() as int)) =~= Seq::<bool>::empty());
        assert(out@ =~= spec_collect_bools(row@));
    }
    out
}

/// The values of one column of a table, top to bottom.
pub open spec fn spec_column(rows: Seq<Vec<CsvObject>>, i: int) -> Seq<CsvObject>
    decreases rows.len(),
{
    if rows.len() == 0 {
        Seq::empty()
    } else {
        seq![rows[0]@[i]] + spec_column(rows.drop_first(), i)
    }
}

/// A column is as long as the table and holds each row's cell at the
/// column's index.
pub proof fn lemma_column_index(rows: Seq<Vec<CsvObject>>, i: int)
    ensures
        spec_column(rows, i).len() == rows.len(),
        forall|j: int|
            0 <= j < rows.len() ==> #[trigger] spec_column(rows, i)[j] == rows[j]@[i],
    decreases rows.len(),
{
    if rows.len() > 0 {
        lemma_column_index(rows.drop_first(), i);
        assert forall|j: int|
            0 <= j < rows.len() implies #[trigger] spec_column(rows, i)[j] == rows[j]@[i] by {
            if j > 0 {
                assert(spec_column(rows, i)[j] == spec_column(rows.drop_first(), i)[j - 1]);
                assert(rows.drop_first()[j - 1] == rows[j]);
            }
        }
    }
}

/// The break windows that the rows of a table denote, in order, skipping
/// rows that denote none.
pub open spec fn spec_collect_breaks(rows: Seq<Vec<CsvObject>>) -> Seq<(int, int)>
    decreases rows.len(),
{
    if rows.len() == 0 {
        Seq::empty()
    } else {
        (match Break::spec_from_csv(rows[0]@) {
            Some(v) => seq![v],
            None => Seq::<(int, int)>::empty(),
        }) + spec_collect_breaks(rows.drop_first())
    }
}

impl Configs {
    /// The timetable as a table of boolean cells: one row per break index,
    /// one column per weekday Monday through Friday.
    pub fn get_timetable_csv(&self) -> (r: Vec<Vec<CsvObject>>)
        requires
            self.wf(),
        ensures
            r@.len() == 8,
            forall|i: int| 0 <= i < 8 ==> (#[trigger] r@[i])@.len() == 5,
            forall|i: int, d: int|
                0 <= i < 8 && 0 <= d < 5 ==> #[trigger] r@[i]@[d] == CsvObject::Bool(
                    spec_schedule_bit(self.spec_timetable().days_view()[d], i),
                ),
    {
        let mut result: Vec<Vec<CsvObject>> = Vec::new();
        let mut i: usize = 0;
        while i < 8
            invariant
                self.wf(),
                i <= 8,
                result@.len() == i,
                forall|k: int| 0 <= k < i ==> (#[trigger] result@[k])@.len() == 5,
                forall|k: int, d: int|
                    0 <= k < i && 0 <= d < 5 ==> #[trigger] result@[k]@[d] == CsvObject::Bool(
                        spec_schedule_bit(self.spec_timetable().days_view()[d], k),
                    ),
            decreases 8 - i,
        {
            let mut row: Vec<CsvObject> = Vec::new();
            let mut d: usize = 0;
            while d < 5
                invariant
                    self.wf(),
                    i < 8,
                    d <= 5,
                    row@.len() == d,
                    forall|c: int|
                        0 <= c < d ==> #[trigger] row@[c] == CsvObject::Bool(
                            spec_schedule_bit(self.spec_timetable().days_view()[c], i as int),
                        ),
                decreases 5 - d,
            {
                let sched: u8 = self.timetable.days[d].to_byte();
                let w: u8 = bit_weight(i);
                row.push(CsvObject::Bool((sched / w) % 2 == 1));
                d += 1;
            }
            result.push(row);
            i += 1;
        }
        result
    }

    /// The break windows as a table of clock texts: one row per break, the
    /// start and end columns.
    pub fn get_breaks_csv(&self) -> (r: Vec<Vec<CsvObject>>)
        requires
            self.wf(),
        ensures
            r@.len() == 8,
            forall|k: int|
                0 <= k < 8 ==> (#[trigger] r@[k])@.len() == 2 && (r@[k]@[0]
                    matches CsvObject::String(s) && s@ == Break::spec_time_text(
                    self.spec_timetable().breaks_view()[k].start@,
                )) && (r@[k]@[1] matches CsvObject::String(s) && s@ == Break::spec_time_text(
                    self.spec_timetable().breaks_view()[k].end@,
                )),
    {
        let mut result: Vec<Vec<CsvObject>> = Vec::new();
        let mut k: usize = 0;
        while k < 8
            invariant
                self.wf(),
                k <= 8,
                result@.len() == k,
                forall|j: int|
                    0 <= j < k ==> (#[trigger] result@[j])@.len() == 2 && (result@[j]@[0]
                        matches CsvObject::String(s) && s@ == Break::spec_time_text(
                        self.spec_timetable().breaks_view()[j].start@,
                    )) && (result@[j]@[1] matches CsvObject::String(s) && s@
                        == Break::spec_time_text(
                        self.spec_timetable().breaks_view()[j].end@,
                    )),
            decreases 8 - k,
        {
            result.push(self.timetable.breaks[k].to_csv());
            k += 1;
        }
        result
    }

    /// Replaces the five daily schedules from a table of boolean cells with
    /// one column per weekday: each column must hold exactly eight boolean
    /// cells and every row must reach across all five columns.  On any
    /// shortfall nothing changes and nothing is reported done.
    #[verifier::loop_isolation(false)]
    pub fn set_timetable_from_csv(&mut self, data: Vec<Vec<CsvObject>>) -> (r: Option<()>)
        requires
            old(self).wf(),
        ensures
            final(self).wf(),
            ({
                let ok = (forall|j: int|
                    0 <= j < data@.len() ==> (#[trigger] data@[j])@.len() >= 5) && (forall|
                    i: int,
                |
                    0 <= i < 5 ==> spec_collect_bools(
                        #[trigger] spec_column(data@, i),
                    ).len() == 8);
                &&& r is Some <==> ok
                &&& !ok ==> *final(self) == *old(self)
                &&& ok ==> final(self).spec_utc_offset() == old(self).spec_utc_offset()
                    && final(self).spec_timetable().breaks_view() == old(
                    self,
                ).spec_timetable().breaks_view() && (forall|i: int|
                    0 <= i < 5 ==> final(self).spec_timetable().days_view()[i] as int
                        == spec_bools_to_byte(spec_collect_bools(#[trigger] spec_column(data@, i))))
            }),
    {
        let mut new_days: Vec<DailySchedule> = Vec::new();
        let mut i: usize = 0;
        while i < 5
            invariant
                old(self).wf(),
                *self == *old(self),
                i <= 5,
                new_days@.len() == i,
                forall|j: int| 0 <= j < data@.len() ==> (#[trigger] data@[j])@.len() >= i,
                forall|k: int|
                    0 <= k < i ==> spec_collect_bools(#[trigger] spec_column(data@, k)).len()
                        == 8 && new_days@[k]@ as int == spec_bools_to_byte(
                        spec_collect_bools(spec_column(data@, k)),
                    ),
            decreases 5 - i,
        {
            let mut bools: Vec<bool> = Vec::new();
            let ghost col = spec_column(data@, i as int);
            proof {
                lemma_column_index(data@, i as int);
                assert(col.skip(0int) =~= col);
            }
            let mut j: usize = 0;
            while j < data.len()
                invariant
                    old(self).wf(),
                    *self == *old(self),
                    i < 5,
                    j <= data@.len(),
                    col == spec_column(data@, i as int),
                    forall|k: int| 0 <= k < data@.len() ==> (#[trigger] data@[k])@.len() >= i,
                    forall|k: int| 0 <= k < j ==> (#[trigger] data@[k])@.len() >= i + 1,
                    bools@ + spec_collect_bools(col.skip(j as int)) =~= spec_collect_bools(
                        col,
                    ),
                decreases data@.len() - j,
            {
                let row: &Vec<CsvObject> = &data[j];
                if row.len() <= i {
                    proof {
                        assert(data@[j as int]@.len() < 5);
                        assert((forall|jj: int|
                            0 <= jj < data@.len() ==> (#[trigger] data@[jj])@.len() >= 5)
                            ==> data@[j as int]@.len() >= 5);
                    }
                    return None;
                }
                proof {
                    lemma_column_index(data@, i as int);
                    assert(col.skip(j as int)[0] == col[j as int]);
                    assert(col[j as int] == data@[j as int]@[i as int]);
                    assert(col.skip(j as int).drop_first() =~= col.skip(j + 1int));
                }
                match &row[i] {
                    CsvObject::Bool(b) => {
                        bools.push(*b);
                    },
                    _ => {
                    },
                }
                j += 1;
                proof {
                    assert(bools@ + spec_collect_bools(col.skip(j as int))
                        =~= spec_collect_bools(col));
                }
            }
            proof {
                assert(spec_collect_bools(col.skip(col.len() as int)) =~= Seq::<bool>::empty());
                assert(bools@ =~= spec_collect_bools(col));
            }
            if bools.len() != 8 {
                proof {
                    assert(spec_collect_bools(spec_column(data@, i as int)).len() != 8);
                    assert((forall|ii: int|
                        0 <= ii < 5 ==> spec_collect_bools(
                            #[trigger] spec_column(data@, ii),
                        ).len() == 8) ==> spec_collect_bools(spec_column(data@, i as int)).len()
                        == 8);
                }
                return None;
            }
            let arr: [bool; 8] = [
                bools[0],
                bools[1],
                bools[2],
                bools[3],
                bools[4],
                bools[5],
                bools[6],
                bools[7],
            ];
            proof {
                assert(arr@ =~= spec_collect_bools(col));
            }
            let d: DailySchedule = DailySchedule::from_bools(arr);
            new_days.push(d);
            proof {
                assert(new_days@[i as int] == d);
                assert(new_days@[i as int]@ as int == spec_bools_to_byte(
                    spec_collect_bools(spec_column(data@, i as int)),
                ));
            }
            i += 1;
        }
        self.timetable.days = new_days;
        proof {
            assert forall|i2: int|
                0 <= i2 < 5 implies self.spec_timetable().days_view()[i2] as int
                == spec_bools_to_byte(spec_collect_bools(#[trigger] spec_column(data@, i2))) by {
                assert(self.spec_timetable().days_view()[i2] == (self.timetable.days@[i2])@);
            }
        }
        Some(())
    }

    /// Replaces the eight break windows from a table of clock-text rows:
    /// rows that do not read as a window are skipped, and exactly eight
    /// must remain.  On any other count nothing changes and nothing is
    /// reported done.
    pub fn set_breaks_from_csv(&mut self, data: Vec<Vec<CsvObject>>) -> (r: Option<()>)
        requires
            old(self).wf(),
        ensures
            final(self).wf(),
            ({
                let picked = spec_collect_breaks(data@);
                &&& r is Some <==> picked.len() == 8
                &&& picked.len() != 8 ==> *final(self) == *old(self)
                &&& picked.len() == 8 ==> final(self).spec_utc_offset() == old(
                    self,
                ).spec_utc_offset() && final(self).spec_timetable().days_view() == old(
                    self,
                ).spec_timetable().days_view() && (forall|k: int|
                    0 <= k < 8 ==> ((#[trigger] final(self).spec_timetable().breaks_view()[k]).start@,
                    final(self).spec_timetable().breaks_view()[k].end@) == picked[k])
            }),
    {
        let ghost rows = data@;
        let mut source: Vec<Vec<CsvObject>> = data;
        let mut breaks: Vec<Break> = Vec::new();
        proof {
            assert(rows.skip(0int) =~= rows);
        }
        while source.len() > 0
            invariant
                old(self).wf(),
                *self == *old(self),
                source@ =~= rows.skip(rows.len() - source@.len()),
                source@.len() <= rows.len(),
                breaks@.map_values(|b: Break| (b.start@, b.end@)) + spec_collect_breaks(
                    rows.skip(rows.len() - source@.len()),
                ) =~= spec_collect_breaks(rows),
                forall|k: int| 0 <= k < breaks@.len() ==> (#[trigger] breaks@[k]).wf(),
            decreases source@.len(),
        {
            let ghost pos = rows.len() - source@.len();
            let row: Vec<CsvObject> = source.remove(0);
            proof {
                assert(row@ == rows.skip(pos)[0]@);
                assert(rows.skip(pos)[0] == rows[pos]);
                assert(rows.skip(pos).drop_first() =~= rows.skip(pos + 1));
                assert(source@ =~= rows.skip(pos + 1));
            }
            match Break::from_csv(row) {
                Some(b) => {
                    breaks.push(b);
                    proof {
                        assert(breaks@.map_values(|x: Break| (x.start@, x.end@))
                            =~= breaks@.drop_last().map_values(|x: Break| (x.start@, x.end@)).push(
                            (b.start@, b.end@),
                        ));
                        assert(breaks@.map_values(|x: Break| (x.start@, x.end@))
                            + spec_collect_breaks(rows.skip(pos + 1)) =~= spec_collect_breaks(
                            rows,
                        ));
                    }
                },
                None => {
                    proof {
                        assert(breaks@.map_values(|x: Break| (x.start@, x.end@))
                            + spec_collect_breaks(rows.skip(pos + 1)) =~= spec_collect_breaks(
                            rows,
                        ));
                    }
                },
            }
        }
        proof {
            assert(rows.skip(rows.len() - 0) =~= Seq::<Vec<CsvObject>>::empty());
            assert(breaks@.map_values(|b: Break| (b.start@, b.end@)) =~= spec_collect_breaks(
                rows,
            ));
        }
        if breaks.len() != 8 {
            return None;
        }
        self.timetable.breaks = breaks;
        proof {
            assert forall|k: int|
                0 <= k < 8 implies ((#[trigger] self.spec_timetable().breaks_view()[k]).start@,
            self.spec_timetable().breaks_view()[k].end@) == spec_collect_breaks(rows)[k] by {
                assert(spec_collect_breaks(rows)[k] == self.timetable.breaks@.map_values(
                    |b: Break| (b.start@, b.end@),
                )[k]);
            }
        }
        Some(())
    }
}

/// One cell of the rendered table: a space, then X for an active break and
/// O for an inactive one.
pub open spec fn spec_display_cell(tt: Timetable, br: int, d: int) -> Seq<char> {
    seq![
        ' ',
        if spec_schedule_bit(tt.days_view()[d], br) {
            'X'
        } else {
            'O'
        },
    ]
}

/// One cell rendered from a raw schedule byte.
pub open spec fn spec_cell_of(sched: u8, br: int) -> Seq<char> {
    seq![
        ' ',
        if spec_schedule_bit(sched, br) {
            'X'
        } else {
            'O'
        },
    ]
}

/// One rendered row built from a break window, the five schedule bytes and
/// the break index.
pub open spec fn spec_display_row_parts(
    b: Break,
    s0: u8,
    s1: u8,
    s2: u8,
    s3: u8,
    s4: u8,
    br: int,
) -> Seq<char> {
    seq![spec_digit_char(br)] + ". ("@ + spec_dec_pad(b.start@ / 3600, 2) + seq![':']
        + spec_dec_pad((b.start@ / 60) % 60, 2) + seq!['-'] + spec_dec_pad(b.end@ / 3600, 2)
        + seq![':'] + spec_dec_pad((b.end@ / 60) % 60, 2) + ") |"@ + spec_cell_of(s0, br)
        + spec_cell_of(s1, br) + spec_cell_of(s2, br) + spec_cell_of(s3, br) + spec_cell_of(
        s4,
        br,
    ) + seq!['\n']
}

/// One rendered row of the table: the break index, its window as short
/// clock texts, then one cell per weekday.
pub open spec fn spec_display_row(tt: Timetable, br: int) -> Seq<char> {
    spec_display_row_parts(
        tt.breaks_view()[br],
        tt.days_view()[0],
        tt.days_view()[1],
        tt.days_view()[2],
        tt.days_view()[3],
        tt.days_view()[4],
        br,
    )
}

/// The rendered rows of the table from break index `br` down.
pub open spec fn spec_display_rows(tt: Timetable, br: int) -> Seq<char>
    decreases 8 - br,
{
    if br < 0 || br >= 8 {
        Seq::empty()
    } else {
        spec_display_row(tt, br) + spec_display_rows(tt, br + 1)
    }
}

/// The whole rendered table: a weekday header line, then one row per break.
pub open spec fn spec_display_timetable(tt: Timetable) -> Seq<char> {
    "                 | M T W T F\n"@ + spec_display_rows(tt, 0)
}

impl Timetable {
    /// Renders the timetable as a small text table: one line per break
    /// window with its clock times, and an X or an O per weekday for an
    /// active or inactive break.
    pub fn display(&self) -> (r: String)
        requires
            self.wf(),
        ensures
            r@ == spec_display_timetable(*self),
    {
        let mut out: String = String::new();
        out.append("                 | M T W T F\n");
        let mut br: usize = 0;
        while br < 8
            invariant
                self.wf(),
                br <= 8,
                spec_display_timetable(*self) =~= out@ + spec_display_rows(*self, br as int),
            decreases 8 - br,
        {
            let ghost before = out@;
            append_row(
                &mut out,
                &self.breaks[br],
                self.days[0].to_byte(),
                self.days[1].to_byte(),
                self.days[2].to_byte(),
                self.days[3].to_byte(),
                self.days[4].to_byte(),
                br,
            );
            proof {
                assert(out@ == before + spec_display_row(*self, br as int));
                assert(spec_display_rows(*self, br as int) == spec_display_row(
                    *self,
                    br as int,
                ) + spec_display_rows(*self, br + 1int));
                assert(spec_display_timetable(*self) =~= out@ + spec_display_rows(
                    *self,
                    br + 1int,
                ));
            }
            br += 1;
        }
        proof {
            assert(spec_display_rows(*self, 8int) =~= Seq::<char>::empty());
            assert(out@ =~= spec_display_timetable(*self));
        }
        out
    }
}

/// Appends one rendered row of the table.
#[verifier::rlimit(100)]
fn append_row(out: &mut String, b: &Break, s0: u8, s1: u8, s2: u8, s3: u8, s4: u8, br: usize)
    requires
        b.wf(),
        br < 8,
    ensures
        final(out)@ == old(out)@ + spec_display_row_parts(*b, s0, s1, s2, s3, s4, br as int),
{
    let hms_start: (u8, u8, u8) = b.start.to_hms();
    let hms_end: (u8, u8, u8) = b.end.to_hms();
    let digits: &str = "0123456789";
    proof {
        reveal_strlit("0123456789");
    }
    out.append(digits.substring_ascii(br, br + 1));
    proof {
        assert(digits@.subrange(br as int, br + 1int) =~= seq![spec_digit_char(br as int)]);
    }
    out.append(". (");
    append_u64_pad(out, hms_start.0 as u64, 2);
    push_char(out, ':');
    append_u64_pad(out, hms_start.1 as u64, 2);
    push_char(out, '-');
    append_u64_pad(out, hms_end.0 as u64, 2);
    push_char(out, ':');
    append_u64_pad(out, hms_end.1 as u64, 2);
    out.append(") |");
    proof {
        assert(out@ =~= old(out)@ + (seq![spec_digit_char(br as int)] + ". ("@ + spec_dec_pad(
            b.start@ / 3600,
            2,
        ) + seq![':'] + spec_dec_pad((b.start@ / 60) % 60, 2) + seq!['-'] + spec_dec_pad(
            b.end@ / 3600,
            2,
        ) + seq![':'] + spec_dec_pad((b.end@ / 60) % 60, 2) + ") |"@));
    }
    let ghost mid = out@;
    append_cell(out, s0, br);
    append_cell(out, s1, br);
    append_cell(out, s2, br);
    append_cell(out, s3, br);
    append_cell(out, s4, br);
    push_char(out, '\n');
    proof {
        assert(out@ =~= mid + spec_cell_of(s0, br as int) + spec_cell_of(s1, br as int)
            + spec_cell_of(s2, br as int) + spec_cell_of(s3, br as int) + spec_cell_of(
            s4,
            br as int,
        ) + seq!['\n']);
        assert(final(out)@ =~= old(out)@ + spec_display_row_parts(
            *b,
            s0,
            s1,
            s2,
            s3,
            s4,
            br as int,
        ));
    }
}

/// Appends one weekday cell: a space, then X or O by the schedule bit.
fn append_cell(out: &mut String, sched: u8, br: usize)
    requires
        br < 8,
    ensures
        final(out)@ == old(out)@ + spec_cell_of(sched, br as int),
{
    push_char(out, ' ');
    let w: u8 = bit_weight(br);
    if (sched / w) % 2 == 1 {
        push_char(out, 'X');
    } else {
        push_char(out, 'O');
    }
}

} // verus!
