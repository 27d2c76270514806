//! Persistence: a session serializes field for field into a flat byte
//! record and deserializes back to an identical session — every event
//! identifier, position, duration and selection bound equal.
//!
//! The record is: the identifier counter, the event count, each event
//! (identifier, pitch class, accidental, octave, start, duration), the
//! selection count, and each selection's bounds; every field four bytes,
//! least significant byte first, signed fields offset by `2^31`.

use vstd::prelude::*;

use crate::event::Event;
use crate::event::EventV;
use crate::pitch::Accidental;
use crate::pitch::Note;
use crate::pitch::Octave;
use crate::pitch::Pitch;
use crate::pitch::PitchName;
use crate::pulse::Location;
use crate::pulse::Pulse;
use crate::score::evs;
use crate::score::Score;
use crate::selection::SelV;
use crate::selection::Selection;
use crate::selection::Selections;
use crate::session::ctx_fits;
use crate::session::Context;
use crate::session::CtxV;

verus! {

/// The four bytes of a value in `[0, 2^32)`, least significant first.
pub open spec fn le32(n: int) -> Seq<u8>
    recommends
        0 <= n < 0x1_0000_0000,
{
    seq![
        (n % 256) as u8,
        ((n / 256) % 256) as u8,
        ((n / 65536) % 256) as u8,
        ((n / 16777216) % 256) as u8,
    ]
}

/// The value of four bytes, least significant first.
pub open spec fn rd32(s: Seq<u8>) -> int
    recommends
        s.len() == 4,
{
    s[0] + s[1] * 256 + s[2] * 65536 + s[3] * 16777216
}

/// Reading back the four bytes of a value reproduces it.
pub proof fn lemma_le32_roundtrip(n: int)
    requires
        0 <= n < 0x1_0000_0000,
    ensures
        le32(n).len() == 4,
        rd32(le32(n)) == n,
{
    let q1 = n / 256;
    let q2 = q1 / 256;
    let q3 = q2 / 256;
    vstd::arithmetic::div_mod::lemma_fundamental_div_mod(n, 256);
    vstd::arithmetic::div_mod::lemma_mod_bound(n, 256);
    vstd::arithmetic::div_mod::lemma_div_pos_is_pos(n, 256);
    vstd::arithmetic::div_mod::lemma_fundamental_div_mod(q1, 256);
    vstd::arithmetic::div_mod::lemma_mod_bound(q1, 256);
    vstd::arithmetic::div_mod::lemma_div_pos_is_pos(q1, 256);
    vstd::arithmetic::div_mod::lemma_fundamental_div_mod(q2, 256);
    vstd::arithmetic::div_mod::lemma_mod_bound(q2, 256);
    vstd::arithmetic::div_mod::lemma_div_pos_is_pos(q2, 256);
    vstd::arithmetic::div_mod::lemma_div_denominator(n, 256, 256);
    vstd::arithmetic::div_mod::lemma_div_denominator(n, 65536, 256);
    assert(q2 == n / 65536);
    assert(q3 == n / 16777216);
    assert(q3 < 256) by {
        vstd::arithmetic::div_mod::lemma_div_is_ordered(n, 0xff_ffff_ffff, 16777216);
    }
    vstd::arithmetic::div_mod::lemma_small_mod(q3 as nat, 256);
}

/// The storage code of a pitch class.
pub open spec fn class_code(c: PitchName) -> int {
    match c {
        PitchName::A => 0,
        PitchName::B => 1,
        PitchName::C => 2,
        PitchName::D => 3,
        PitchName::E => 4,
        PitchName::F => 5,
        PitchName::G => 6,
    }
}

/// The pitch class of a storage code.
pub open spec fn class_of(n: int) -> PitchName
    recommends
        0 <= n <= 6,
{
    if n == 0 {
        PitchName::A
    } else if n == 1 {
        PitchName::B
    } else if n == 2 {
        PitchName::C
    } else if n == 3 {
        PitchName::D
    } else if n == 4 {
        PitchName::E
    } else if n == 5 {
        PitchName::F
    } else {
        PitchName::G
    }
}

/// The storage code of an accidental.
pub open spec fn acc_code(a: Accidental) -> int {
    match a {
        Accidental::Sharp => 0,
        Accidental::Flat => 1,
        Accidental::Natural => 2,
    }
}

/// The accidental of a storage code.
pub open spec fn acc_of(n: int) -> Accidental
    recommends
        0 <= n <= 2,
{
    if n == 0 {
        Accidental::Sharp
    } else if n == 1 {
        Accidental::Flat
    } else {
        Accidental::Natural
    }
}

/// The offset that maps a signed position into the unsigned stored field.
pub open spec fn bias() -> int {
    0x8000_0000
}

/// The twenty-four bytes of one event.
pub open spec fn enc_event(e: EventV) -> Seq<u8> {
    le32(e.id) + le32(class_code(e.note.pitch.class)) + le32(acc_code(e.note.pitch.accidental))
        + le32(e.note.octave.0 as int) + le32(e.start + bias()) + le32(e.dur + bias())
}

/// The bytes of a run of events.
pub open spec fn enc_events(s: Seq<EventV>) -> Seq<u8>
    decreases s.len(),
{
    if s.len() == 0 {
        Seq::empty()
    } else {
        enc_event(s[0]) + enc_events(s.drop_first())
    }
}

/// The eight bytes of one selection.
pub open spec fn enc_sel(s: SelV) -> Seq<u8> {
    le32(s.begin + bias()) + le32(s.end + bias())
}

/// The bytes of a run of selections.
pub open spec fn enc_sels(s: Seq<SelV>) -> Seq<u8>
    decreases s.len(),
{
    if s.len() == 0 {
        Seq::empty()
    } else {
        enc_sel(s[0]) + enc_sels(s.drop_first())
    }
}

/// The whole record of a session.
pub open spec fn encode_spec(c: CtxV) -> Seq<u8> {
    le32(c.next_id) + le32(c.events.len() as int) + enc_events(c.events) + le32(
        c.sels.len() as int,
    ) + enc_sels(c.sels)
}

/// The event stored at `off`, unless its pitch class or accidental code is
/// meaningless.
pub open spec fn dec_event(s: Seq<u8>, off: int) -> Option<EventV>
    recommends
        0 <= off,
        off + 24 <= s.len(),
{
    let id = rd32(s.subrange(off, off + 4));
    let cl = rd32(s.subrange(off + 4, off + 8));
    let ac = rd32(s.subrange(off + 8, off + 12));
    let oct = rd32(s.subrange(off + 12, off + 16));
    let st = rd32(s.subrange(off + 16, off + 20));
    let du = rd32(s.subrange(off + 20, off + 24));
    if cl > 6 || ac > 2 {
        None
    } else {
        Some(
            EventV {
                id: id,
                note: Note {
                    pitch: Pitch { class: class_of(cl), accidental: acc_of(ac) },
                    octave: Octave(oct as u32),
                },
                start: st - bias(),
                dur: du - bias(),
            },
        )
    }
}

/// The `n` events stored from `off` on.
pub open spec fn dec_events(s: Seq<u8>, off: int, n: int) -> Option<Seq<EventV>>
    decreases n,
{
    if n <= 0 {
        Some(Seq::empty())
    } else {
        match dec_event(s, off) {
            None => None,
            Some(e) => match dec_events(s, off + 24, n - 1) {
                None => None,
                Some(rest) => Some(seq![e] + rest),
            },
        }
    }
}

/// The selection stored at `off`.
pub open spec fn dec_sel(s: Seq<u8>, off: int) -> SelV
    recommends
        0 <= off,
        off + 8 <= s.len(),
{
    SelV {
        begin: rd32(s.subrange(off, off + 4)) - bias(),
        end: rd32(s.subrange(off + 4, off + 8)) - bias(),
    }
}

/// The `n` selections stored from `off` on.
pub open spec fn dec_sels(s: Seq<u8>, off: int, n: int) -> Seq<SelV>
    decreases n,
{
    if n <= 0 {
        Seq::empty()
    } else {
        seq![dec_sel(s, off)] + dec_sels(s, off + 8, n - 1)
    }
}

/// The session a record holds: no result when the record's length does not
/// match its own counts, or some stored code is meaningless.
pub open spec fn decode_spec(s: Seq<u8>) -> Option<CtxV> {
    if s.len() < 12 {
        None
    } else {
        let next_id = rd32(s.subrange(0, 4));
        let ne = rd32(s.subrange(4, 8));
        if s.len() < 12 + 24 * ne {
            None
        } else {
            let off_sels = 8 + 24 * ne;
            let ns = rd32(s.subrange(off_sels, off_sels + 4));
            if s.len() != off_sels + 4 + 8 * ns {
                None
            } else {
                match dec_events(s, 8, ne) {
                    None => None,
                    Some(events) => Some(
                        CtxV { events: events, sels: dec_sels(s, off_sels + 4, ns), next_id: next_id },
                    ),
                }
            }
        }
    }
}

/// A session model whose every field the record format can store: machine
/// ranges on positions and counters, identifiers below `2^32`, and counts
/// below `2^32`.
pub open spec fn ctx_encodable(c: CtxV) -> bool {
    &&& ctx_fits(c)
    &&& forall|i: int|
        0 <= i < c.events.len() ==> {
            let e = #[trigger] c.events[i];
            &&& 0 <= e.id < 0x1_0000_0000
            &&& i32::MIN <= e.dur <= i32::MAX
        }
    &&& c.events.len() < 0x1_0000_0000
    &&& c.sels.len() < 0x1_0000_0000
}

/// The model of a live session is encodable whenever its collections are
/// short enough to count in the record's fields.
pub proof fn lemma_view_encodable(c: &Context)
    requires
        c.score.events@.len() < 0x1_0000_0000,
        c.selections.0@.len() < 0x1_0000_0000,
    ensures
        ctx_encodable(c@),
{
    crate::session::lemma_view_fits(c);
    assert forall|i: int| 0 <= i < c@.events.len() implies {
        let e = #[trigger] c@.events[i];
        &&& 0 <= e.id < 0x1_0000_0000
        &&& i32::MIN <= e.dur <= i32::MAX
    } by {
        assert(c@.events[i] == c.score.events@[i]@);
    }
}

/// One event's record is twenty-four bytes.
pub proof fn lemma_enc_events_len(s: Seq<EventV>)
    ensures
        enc_events(s).len() == 24 * s.len(),
    decreases s.len(),
{
    if s.len() > 0 {
        lemma_enc_events_len(s.drop_first());
    }
}

/// One selection's record is eight bytes.
pub proof fn lemma_enc_sels_len(s: Seq<SelV>)
    ensures
        enc_sels(s).len() == 8 * s.len(),
    decreases s.len(),
{
    if s.len() > 0 {
        lemma_enc_sels_len(s.drop_first());
    }
}

/// Where a buffer's window holds the concatenation of two records, each
/// record sits in its own half of the window.
proof fn lemma_subrange_split(buf: Seq<u8>, off: int, a: Seq<u8>, b: Seq<u8>)
    requires
        0 <= off,
        off + a.len() + b.len() <= buf.len(),
        buf.subrange(off, off + a.len() + b.len()) == a + b,
    ensures
        buf.subrange(off, off + a.len()) == a,
        buf.subrange(off + a.len(), off + a.len() + b.len()) == b,
{
    let w = buf.subrange(off, off + a.len() + b.len());
    assert forall|i: int| 0 <= i < a.len() implies buf.subrange(off, off + a.len())[i] == a[i] by {
        assert(w[i] == (a + b)[i]);
    }
    assert(buf.subrange(off, off + a.len()) =~= a);
    assert forall|i: int|
        0 <= i < b.len() implies buf.subrange(off + a.len(), off + a.len() + b.len())[i]
        == b[i] by {
        assert(w[a.len() + i] == (a + b)[a.len() + i]);
    }
    assert(buf.subrange(off + a.len(), off + a.len() + b.len()) =~= b);
}

/// One event's record, re-bracketed from its head field.
proof fn lemma_enc_event_assoc(e: EventV)
    ensures
        ({
            let a1 = le32(e.id);
            let a2 = le32(class_code(e.note.pitch.class));
            let a3 = le32(acc_code(e.note.pitch.accidental));
            let a4 = le32(e.note.octave.0 as int);
            let a5 = le32(e.start + bias());
            let a6 = le32(e.dur + bias());
            enc_event(e) == a1 + (a2 + (a3 + (a4 + (a5 + a6))))
        }),
{
    let a1 = le32(e.id);
    let a2 = le32(class_code(e.note.pitch.class));
    let a3 = le32(acc_code(e.note.pitch.accidental));
    let a4 = le32(e.note.octave.0 as int);
    let a5 = le32(e.start + bias());
    let a6 = le32(e.dur + bias());
    vstd::seq_lib::lemma_concat_associative(a1 + a2 + a3 + a4, a5, a6);
    vstd::seq_lib::lemma_concat_associative(a1 + a2 + a3, a4, a5 + a6);
    vstd::seq_lib::lemma_concat_associative(a1 + a2, a3, a4 + (a5 + a6));
    vstd::seq_lib::lemma_concat_associative(a1, a2, a3 + (a4 + (a5 + a6)));
}

/// Appending one event to a run appends its record.
pub proof fn lemma_enc_events_push(s: Seq<EventV>, e: EventV)
    ensures
        enc_events(s.push(e)) == enc_events(s) + enc_event(e),
    decreases s.len(),
{
    broadcast use vstd::seq_lib::group_seq_properties;

    if s.len() == 0 {
        assert(s.push(e)[0] == e);
        assert(s.push(e).drop_first() =~= Seq::<EventV>::empty());
        assert(enc_events(s.push(e)) == enc_event(e) + enc_events(Seq::<EventV>::empty()));
        assert(enc_event(e) + Seq::<u8>::empty() =~= enc_event(e));
        assert(Seq::<u8>::empty() + enc_event(e) =~= enc_event(e));
    } else {
        assert(s.push(e)[0] == s[0]);
        assert(s.push(e).drop_first() =~= s.drop_first().push(e));
        lemma_enc_events_push(s.drop_first(), e);
        vstd::seq_lib::lemma_concat_associative(
            enc_event(s[0]),
            enc_events(s.drop_first()),
            enc_event(e),
        );
    }
}

/// Appending one selection to a run appends its record.
pub proof fn lemma_enc_sels_push(s: Seq<SelV>, x: SelV)
    ensures
        enc_sels(s.push(x)) == enc_sels(s) + enc_sel(x),
    decreases s.len(),
{
    broadcast use vstd::seq_lib::group_seq_properties;

    if s.len() == 0 {
        assert(s.push(x)[0] == x);
        assert(s.push(x).drop_first() =~= Seq::<SelV>::empty());
        assert(enc_sels(s.push(x)) == enc_sel(x) + enc_sels(Seq::<SelV>::empty()));
        assert(enc_sel(x) + Seq::<u8>::empty() =~= enc_sel(x));
        assert(Seq::<u8>::empty() + enc_sel(x) =~= enc_sel(x));
    } else {
        assert(s.push(x)[0] == s[0]);
        assert(s.push(x).drop_first() =~= s.drop_first().push(x));
        lemma_enc_sels_push(s.drop_first(), x);
        vstd::seq_lib::lemma_concat_associative(
            enc_sel(s[0]),
            enc_sels(s.drop_first()),
            enc_sel(x),
        );
    }
}

/// Where a buffer holds one event's record, decoding reads that event
/// back.
pub proof fn lemma_dec_event_at(buf: Seq<u8>, off: int, e: EventV)
    requires
        0 <= off,
        off + 24 <= buf.len(),
        buf.subrange(off, off + 24) == enc_event(e),
        0 <= e.id < 0x1_0000_0000,
        i32::MIN <= e.start <= i32::MAX,
        i32::MIN <= e.dur <= i32::MAX,
    ensures
        dec_event(buf, off) == Some(e),
{
    let a1 = le32(e.id);
    let a2 = le32(class_code(e.note.pitch.class));
    let a3 = le32(acc_code(e.note.pitch.accidental));
    let a4 = le32(e.note.octave.0 as int);
    let a5 = le32(e.start + bias());
    let a6 = le32(e.dur + bias());
    lemma_enc_event_assoc(e);
    lemma_subrange_split(buf, off, a1, a2 + (a3 + (a4 + (a5 + a6))));
    lemma_subrange_split(buf, off + 4, a2, a3 + (a4 + (a5 + a6)));
    lemma_subrange_split(buf, off + 8, a3, a4 + (a5 + a6));
    lemma_subrange_split(buf, off + 12, a4, a5 + a6);
    lemma_subrange_split(buf, off + 16, a5, a6);
    assert(buf.subrange(off + 20, off + 24) == a6);
    lemma_le32_roundtrip(e.id);
    lemma_le32_roundtrip(class_code(e.note.pitch.class));
    lemma_le32_roundtrip(acc_code(e.note.pitch.accidental));
    lemma_le32_roundtrip(e.note.octave.0 as int);
    lemma_le32_roundtrip(e.start + bias());
    lemma_le32_roundtrip(e.dur + bias());
    assert(class_of(class_code(e.note.pitch.class)) == e.note.pitch.class);
    assert(acc_of(acc_code(e.note.pitch.accidental)) == e.note.pitch.accidental);
}

/// Where a buffer holds a run of event records, decoding that many events
/// reads the run back.
pub proof fn lemma_dec_events_at(buf: Seq<u8>, off: int, s: Seq<EventV>)
    requires
        0 <= off,
        off + 24 * s.len() <= buf.len(),
        buf.subrange(off, off + 24 * s.len()) == enc_events(s),
        forall|i: int|
            0 <= i < s.len() ==> {
                let e = #[trigger] s[i];
                &&& 0 <= e.id < 0x1_0000_0000
                &&& i32::MIN <= e.start <= i32::MAX
                &&& i32::MIN <= e.dur <= i32::MAX
            },
    ensures
        dec_events(buf, off, s.len() as int) == Some(s),
    decreases s.len(),
{
    if s.len() > 0 {
        let rest = s.drop_first();
        lemma_enc_events_len(rest);
        assert(enc_events(s) == enc_event(s[0]) + enc_events(rest));
        lemma_subrange_split(buf, off, enc_event(s[0]), enc_events(rest));
        lemma_dec_event_at(buf, off, s[0]);
        assert forall|i: int| 0 <= i < rest.len() implies {
            let e = #[trigger] rest[i];
            &&& 0 <= e.id < 0x1_0000_0000
            &&& i32::MIN <= e.start <= i32::MAX
            &&& i32::MIN <= e.dur <= i32::MAX
        } by {
            assert(rest[i] == s[i + 1]);
        }
        lemma_dec_events_at(buf, off + 24, rest);
        assert(seq![s[0]] + rest =~= s);
    }
}

/// Where a buffer holds one selection's record, decoding reads it back.
pub proof fn lemma_dec_sel_at(buf: Seq<u8>, off: int, x: SelV)
    requires
        0 <= off,
        off + 8 <= buf.len(),
        buf.subrange(off, off + 8) == enc_sel(x),
        i32::MIN <= x.begin <= i32::MAX,
        i32::MIN <= x.end <= i32::MAX,
    ensures
        dec_sel(buf, off) == x,
{
    lemma_subrange_split(buf, off, le32(x.begin + bias()), le32(x.end + bias()));
    lemma_le32_roundtrip(x.begin + bias());
    lemma_le32_roundtrip(x.end + bias());
}

/// Where a buffer holds a run of selection records, decoding that many
/// selections reads the run back.
pub proof fn lemma_dec_sels_at(buf: Seq<u8>, off: int, s: Seq<SelV>)
    requires
        0 <= off,
        off + 8 * s.len() <= buf.len(),
        buf.subrange(off, off + 8 * s.len()) == enc_sels(s),
        forall|i: int|
            0 <= i < s.len() ==> i32::MIN <= (#[trigger] s[i]).begin <= i32::MAX && i32::MIN
                <= s[i].end <= i32::MAX,
    ensures
        dec_sels(buf, off, s.len() as int) == s,
    decreases s.len(),
{
    if s.len() > 0 {
        let rest = s.drop_first();
        lemma_enc_sels_len(rest);
        assert(enc_sels(s) == enc_sel(s[0]) + enc_sels(rest));
        lemma_subrange_split(buf, off, enc_sel(s[0]), enc_sels(rest));
        lemma_dec_sel_at(buf, off, s[0]);
        assert forall|i: int| 0 <= i < rest.len() implies i32::MIN <= (#[trigger] rest[i]).begin
            <= i32::MAX && i32::MIN <= rest[i].end <= i32::MAX by {
            assert(rest[i] == s[i + 1]);
        }
        lemma_dec_sels_at(buf, off + 8, rest);
        assert(seq![s[0]] + rest =~= s);
    }
}

/// Serializing a session and deserializing the record reproduces it
/// identically: every event identifier, pitch, position and duration, and
/// every selection bound, comes back equal, as does the identifier
/// counter.
/// The fields of a session's record sit at their fixed offsets.
proof fn lemma_encode_fields(c: CtxV)
    requires
        ctx_encodable(c),
    ensures
        ({
            let buf = encode_spec(c);
            let ne = c.events.len() as int;
            let ns = c.sels.len() as int;
            &&& buf.len() == 12 + 24 * ne + 8 * ns
            &&& buf.subrange(0, 4) == le32(c.next_id)
            &&& buf.subrange(4, 8) == le32(ne)
            &&& buf.subrange(8, 8 + 24 * ne) == enc_events(c.events)
            &&& buf.subrange(8 + 24 * ne, 12 + 24 * ne) == le32(ns)
            &&& buf.subrange(12 + 24 * ne, 12 + 24 * ne + 8 * ns) == enc_sels(c.sels)
        }),
{
    let buf = encode_spec(c);
    let ne = c.events.len() as int;
    let ns = c.sels.len() as int;
    let l1 = le32(c.next_id);
    let l2 = le32(ne);
    let ev = enc_events(c.events);
    let l3 = le32(ns);
    let sl = enc_sels(c.sels);
    lemma_enc_events_len(c.events);
    lemma_enc_sels_len(c.sels);
    vstd::seq_lib::lemma_concat_associative(l1 + l2 + ev, l3, sl);
    vstd::seq_lib::lemma_concat_associative(l1 + l2, ev, l3 + sl);
    vstd::seq_lib::lemma_concat_associative(l1, l2, ev + (l3 + sl));
    assert(buf == l1 + (l2 + (ev + (l3 + sl))));
    assert(buf.len() == 12 + 24 * ne + 8 * ns);
    assert(buf.subrange(0, buf.len() as int) =~= buf);
    lemma_subrange_split(buf, 0, l1, l2 + (ev + (l3 + sl)));
    lemma_subrange_split(buf, 4, l2, ev + (l3 + sl));
    lemma_subrange_split(buf, 8, ev, l3 + sl);
    lemma_subrange_split(buf, 8 + 24 * ne, l3, sl);
}

/// Serializing a session and deserializing the record reproduces it
/// identically: every event identifier, pitch, position and duration, and
/// every selection bound, comes back equal, as does the identifier
/// counter.
pub proof fn lemma_codec_roundtrip(c: CtxV)
    requires
        ctx_encodable(c),
    ensures
        decode_spec(encode_spec(c)) == Some(c),
{
    let buf = encode_spec(c);
    let ne = c.events.len() as int;
    let ns = c.sels.len() as int;
    let off_sels = 8 + 24 * ne;
    lemma_encode_fields(c);
    assert(rd32(buf.subrange(0, 4)) == c.next_id) by {
        lemma_le32_roundtrip(c.next_id);
    }
    assert(rd32(buf.subrange(4, 8)) == ne) by {
        lemma_le32_roundtrip(ne);
    }
    assert(rd32(buf.subrange(off_sels, off_sels + 4)) == ns) by {
        lemma_le32_roundtrip(ns);
    }
    assert(dec_events(buf, 8, ne) == Some(c.events)) by {
        assert forall|i: int| 0 <= i < c.events.len() implies {
            let e = #[trigger] c.events[i];
            &&& 0 <= e.id < 0x1_0000_0000
            &&& i32::MIN <= e.start <= i32::MAX
            &&& i32::MIN <= e.dur <= i32::MAX
        } by {}
        lemma_dec_events_at(buf, 8, c.events);
    }
    assert(dec_sels(buf, off_sels + 4, ns) == c.sels) by {
        lemma_dec_sels_at(buf, off_sels + 4, c.sels);
    }
    assert(decode_spec(buf) == Some(CtxV { events: c.events, sels: c.sels, next_id: c.next_id }));
    assert(CtxV { events: c.events, sels: c.sels, next_id: c.next_id } == c);
}

/// Six records appended one by one form their concatenation.
proof fn lemma_append6(h: Seq<u8>, a: Seq<u8>, b: Seq<u8>, c: Seq<u8>, d: Seq<u8>, e: Seq<u8>, f: Seq<u8>)
    ensures
        h + a + b + c + d + e + f == h + (a + b + c + d + e + f),
{
    vstd::seq_lib::lemma_concat_associative(h, a, b);
    vstd::seq_lib::lemma_concat_associative(h, a + b, c);
    vstd::seq_lib::lemma_concat_associative(h, a + b + c, d);
    vstd::seq_lib::lemma_concat_associative(h, a + b + c + d, e);
    vstd::seq_lib::lemma_concat_associative(h, a + b + c + d + e, f);
}

/// Appends the four bytes of `n`, least significant first.
fn push_le32(out: &mut Vec<u8>, n: u32)
    ensures
        final(out)@ == old(out)@ + le32(n as int),
{
    out.push((n % 256) as u8);
    out.push(((n / 256) % 256) as u8);
    out.push(((n / 65536) % 256) as u8);
    out.push(((n / 16777216) % 256) as u8);
    proof {
        assert(out@ =~= old(out)@ + le32(n as int));
    }
}

/// The stored form of a signed position.
fn bias_u32(v: i32) -> (r: u32)
    ensures
        r as int == v + bias(),
{
    ((v as i64) + 0x8000_0000i64) as u32
}

/// The signed position of a stored field.
fn unbias_i32(v: u32) -> (r: i32)
    ensures
        r as int == v - bias(),
{
    ((v as i64) - 0x8000_0000i64) as i32
}

/// The storage code of a pitch class.
fn class_code_of(c: PitchName) -> (r: u32)
    ensures
        r as int == class_code(c),
{
    match c {
        PitchName::A => 0,
        PitchName::B => 1,
        PitchName::C => 2,
        PitchName::D => 3,
        PitchName::E => 4,
        PitchName::F => 5,
        PitchName::G => 6,
    }
}

/// The storage code of an accidental.
fn acc_code_of(a: Accidental) -> (r: u32)
    ensures
        r as int == acc_code(a),
{
    match a {
        Accidental::Sharp => 0,
        Accidental::Flat => 1,
        Accidental::Natural => 2,
    }
}

/// The value of the four bytes at `off`, least significant first.
fn rd32_at(bytes: &Vec<u8>, off: usize) -> (r: u32)
    requires
        off + 4 <= bytes@.len(),
    ensures
        r as int == rd32(bytes@.subrange(off as int, off as int + 4)),
{
    proof {
        vstd::std_specs::vec::axiom_spec_len(bytes);
    }
    let b0 = bytes[off] as u32;
    let b1 = bytes[off + 1] as u32;
    let b2 = bytes[off + 2] as u32;
    let b3 = bytes[off + 3] as u32;
    proof {
        let w = bytes@.subrange(off as int, off as int + 4);
        assert(w[0] == bytes@[off as int]);
        assert(w[1] == bytes@[off as int + 1]);
        assert(w[2] == bytes@[off as int + 2]);
        assert(w[3] == bytes@[off as int + 3]);
    }
    b0 + b1 * 256 + b2 * 65536 + b3 * 16777216
}

impl Context {
    /// Serializes the session field for field into its byte record.
    pub fn encode(&self) -> (r: Vec<u8>)
        requires
            self.score.events@.len() < 0x1_0000_0000,
            self.selections.0@.len() < 0x1_0000_0000,
        ensures
            r@ == encode_spec(self@),
    {
        let mut out: Vec<u8> = Vec::new();
        push_le32(&mut out, self.next_id);
        push_le32(&mut out, self.score.events.len() as u32);
        let ghost head = le32(self@.next_id) + le32(self@.events.len() as int);
        proof {
            Seq::<u8>::add_empty_left(Seq::<u8>::empty(), le32(self@.next_id));
            Seq::<u8>::add_empty_right(head, enc_events(self@.events.take(0)));
        }
        let n = self.score.events.len();
        let mut i: usize = 0;
        while i < n
            invariant
                0 <= i <= n,
                n == self.score.events@.len(),
                out@ == head + enc_events(self@.events.take(i as int)),
            decreases n - i,
        {
            let e = self.score.events[i];
            proof {
                assert(self@.events[i as int] == e@);
            }
            let ghost before = out@;
            push_le32(&mut out, e.event_id);
            push_le32(&mut out, class_code_of(e.note.pitch.class));
            push_le32(&mut out, acc_code_of(e.note.pitch.accidental));
            push_le32(&mut out, e.note.octave.0);
            push_le32(&mut out, bias_u32(e.start.0));
            push_le32(&mut out, bias_u32(e.duration.0));
            proof {
                lemma_append6(
                    before,
                    le32(e@.id),
                    le32(class_code(e@.note.pitch.class)),
                    le32(acc_code(e@.note.pitch.accidental)),
                    le32(e@.note.octave.0 as int),
                    le32(e@.start + bias()),
                    le32(e@.dur + bias()),
                );
                assert(out@ == before + enc_event(e@));
                lemma_enc_events_push(self@.events.take(i as int), e@);
                assert(self@.events.take(i as int + 1) =~= self@.events.take(i as int).push(e@));
                vstd::seq_lib::lemma_concat_associative(
                    head,
                    enc_events(self@.events.take(i as int)),
                    enc_event(e@),
                );
                assert(out@ == head + enc_events(self@.events.take(i as int + 1)));
            }
            i = i + 1;
        }
        proof {
            assert(self@.events.take(n as int) =~= self@.events);
        }
        push_le32(&mut out, self.selections.0.len() as u32);
        let ghost head2 = head + enc_events(self@.events) + le32(self@.sels.len() as int);
        proof {
            Seq::<u8>::add_empty_right(head2, enc_sels(self@.sels.take(0)));
        }
        let m = self.selections.0.len();
        let mut j: usize = 0;
        while j < m
            invariant
                0 <= j <= m,
                m == self.selections.0@.len(),
                out@ == head2 + enc_sels(self@.sels.take(j as int)),
            decreases m - j,
        {
            let s = self.selections.0[j];
            proof {
                assert(self@.sels[j as int] == s@);
            }
            let ghost before = out@;
            push_le32(&mut out, bias_u32(s.begin.0.0));
            push_le32(&mut out, bias_u32(s.end.0.0));
            proof {
                vstd::seq_lib::lemma_concat_associative(
                    before,
                    le32(s@.begin + bias()),
                    le32(s@.end + bias()),
                );
                assert(out@ == before + enc_sel(s@));
                lemma_enc_sels_push(self@.sels.take(j as int), s@);
                assert(self@.sels.take(j as int + 1) =~= self@.sels.take(j as int).push(s@));
                vstd::seq_lib::lemma_concat_associative(
                    head2,
                    enc_sels(self@.sels.take(j as int)),
                    enc_sel(s@),
                );
                assert(out@ == head2 + enc_sels(self@.sels.take(j as int + 1)));
            }
            j = j + 1;
        }
        proof {
            assert(self@.sels.take(m as int) =~= self@.sels);
            assert(out@ == encode_spec(self@));
        }
        out
    }

    /// Deserializes a byte record back into the session it holds. Nothing
    /// comes back when the record's length does not match its own counts
    /// or some stored code is meaningless.
    #[verifier::rlimit(50)]
    pub fn decode(bytes: &Vec<u8>) -> (r: Option<Context>)
        ensures
            match r {
                Some(c) => decode_spec(bytes@) == Some(c@),
                None => decode_spec(bytes@) is None,
            },
    {
        if bytes.len() < 12 {
            return None;
        }
        let next_id = rd32_at(bytes, 0);
        let ne32 = rd32_at(bytes, 4);
        let ne = ne32 as u64;
        let blen = bytes.len() as u64;
        if blen < 12 + 24 * ne {
            return None;
        }
        let off_sels: u64 = 8 + 24 * ne;
        let ns32 = rd32_at(bytes, off_sels as usize);
        let ns = ns32 as u64;
        if blen != off_sels + 4 + 8 * ns {
            return None;
        }
        let ghost gne = ne as int;
        let ghost gsels = off_sels as int;
        let mut evd: Vec<Event> = Vec::new();
        let mut i: u64 = 0;
        while i < ne
            invariant
                0 <= i <= ne,
                gne == ne as int,
                blen == bytes@.len(),
                blen == 12 + 24 * ne + 8 * ns,
                evd@.len() == i,
                dec_events(bytes@, 8, gne) == match dec_events(
                    bytes@,
                    8 + 24 * (i as int),
                    gne - i,
                ) {
                    None => None::<Seq<EventV>>,
                    Some(rest) => Some(evs(evd@) + rest),
                },
            decreases ne - i,
        {
            let off = (8 + 24 * i) as usize;
            let ghost goff = off as int;
            let id = rd32_at(bytes, off);
            let cl = rd32_at(bytes, off + 4);
            let ac = rd32_at(bytes, off + 8);
            let oc = rd32_at(bytes, off + 12);
            let st = rd32_at(bytes, off + 16);
            let du = rd32_at(bytes, off + 20);
            if cl > 6 || ac > 2 {
                proof {
                    assert(dec_event(bytes@, goff) is None);
                    assert(dec_events(bytes@, 8, gne) is None);
                    assert(decode_spec(bytes@) is None);
                }
                return None;
            }
            let class = if cl == 0 {
                PitchName::A
            } else if cl == 1 {
                PitchName::B
            } else if cl == 2 {
                PitchName::C
            } else if cl == 3 {
                PitchName::D
            } else if cl == 4 {
                PitchName::E
            } else if cl == 5 {
                PitchName::F
            } else {
                PitchName::G
            };
            let accidental = if ac == 0 {
                Accidental::Sharp
            } else if ac == 1 {
                Accidental::Flat
            } else {
                Accidental::Natural
            };
            let ev = Event {
                event_id: id,
                note: Note { pitch: Pitch { class, accidental }, octave: Octave(oc) },
                duration: Pulse(unbias_i32(du)),
                start: Pulse(unbias_i32(st)),
            };
            proof {
                assert(dec_event(bytes@, goff) == Some(ev@));
            }
            let ghost before = evs(evd@);
            evd.push(ev);
            proof {
                assert(evs(evd@) =~= before.push(ev@));
                let rest2 = dec_events(bytes@, goff + 24, gne - i - 1);
                if rest2 is Some {
                    assert(before.push(ev@) + rest2->0 =~= before + (seq![ev@] + rest2->0));
                }
            }
            i = i + 1;
        }
        proof {
            assert(dec_events(bytes@, 8 + 24 * (i as int), 0) == Some(Seq::<EventV>::empty()));
            assert(evs(evd@) + Seq::<EventV>::empty() =~= evs(evd@));
            assert(dec_events(bytes@, 8, gne) == Some(evs(evd@)));
        }
        let mut sd: Vec<Selection> = Vec::new();
        let mut j: u64 = 0;
        while j < ns
            invariant
                0 <= j <= ns,
                blen == bytes@.len(),
                blen == 12 + 24 * ne + 8 * ns,
                gsels == off_sels as int,
                sd@.len() == j,
                dec_sels(bytes@, gsels + 4, ns as int) == sd@.map_values(|x: Selection| x@)
                    + dec_sels(bytes@, gsels + 4 + 8 * (j as int), ns - j),
            decreases ns - j,
        {
            let off = (off_sels + 4 + 8 * j) as usize;
            let ghost goff = off as int;
            let b = rd32_at(bytes, off);
            let e = rd32_at(bytes, off + 4);
            let sel = Selection {
                begin: Location(Pulse(unbias_i32(b))),
                end: Location(Pulse(unbias_i32(e))),
            };
            proof {
                assert(dec_sel(bytes@, goff) == sel@);
            }
            let ghost before = sd@.map_values(|x: Selection| x@);
            sd.push(sel);
            proof {
                assert(sd@.map_values(|x: Selection| x@) =~= before.push(sel@));
                let rest2 = dec_sels(bytes@, goff + 8, ns - j - 1);
                assert(before.push(sel@) + rest2 =~= before + (seq![sel@] + rest2));
            }
            j = j + 1;
        }
        proof {
            assert(dec_sels(bytes@, gsels + 4 + 8 * (j as int), 0) =~= Seq::<SelV>::empty());
            assert(sd@.map_values(|x: Selection| x@) + Seq::<SelV>::empty() =~= sd@.map_values(
                |x: Selection| x@,
            ));
        }
        let c = Context {
            score: Score { events: evd },
            selections: Selections(sd),
            next_id,
        };
        proof {
            assert(decode_spec(bytes@) == Some(c@));
        }
        Some(c)
    }
}

} // verus!
