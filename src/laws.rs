use vstd::prelude::*;
use crate::datetime::{doc_time_of, host_time_of, offset_of_tz, tz_of_offset, valid_host_time};
use crate::decode::{
    decode_model, decodes_with, datetime_valid, has_float, is_composite, toml_decodable, toml_fits,
};
use crate::encode::{encode_model, host_encodable, host_fits, host_valid, key_chars};
use crate::model::{
    host_wf, toml_wf, Date, Datetime, HostModel, HostValue, Offset, Time, TomlModel, TzInfo,
};
use crate::normalize::crlf_collapsed;

verus! {

/// A host value made only of strings, integers, booleans, floats, sequences and
/// mappings with string keys.
pub open spec fn plain(h: HostModel) -> bool
    decreases h,
{
    match h {
        HostModel::Str(_) => true,
        HostModel::Int(_) => true,
        HostModel::Bool(_) => true,
        HostModel::Float(_) => true,
        HostModel::Sequence(s) => forall|i: int| 0 <= i < s.len() ==> plain(#[trigger] s[i]),
        HostModel::Mapping(m) => forall|i: int|
            0 <= i < m.len() ==> (#[trigger] m[i]).0 is Str && plain(m[i].1),
        _ => false,
    }
}

/// Round trip: a plain host value within the nesting bound encodes, the encoded tree
/// decodes within the same bound, and decoding gives back exactly the value.
pub proof fn lemma_round_trip(h: HostModel, room: int)
    requires
        plain(h),
        host_fits(h, room),
    ensures
        host_valid(h),
        host_encodable(h),
        toml_decodable(encode_model(h)),
        toml_fits(encode_model(h), room),
        decode_model(encode_model(h)) == h,
    decreases h,
{
    match h {
        HostModel::Sequence(s) => {
            assert forall|i: int| 0 <= i < s.len() implies host_valid(#[trigger] s[i])
                && host_encodable(s[i]) && toml_decodable(encode_model(s[i])) && toml_fits(
                encode_model(s[i]),
                room - 1,
            ) && decode_model(encode_model(s[i])) == s[i] by {
                lemma_round_trip(s[i], room - 1);
            }
            let t = encode_model(h);
            assert(t->Array_0.len() == s.len());
            assert forall|i: int| 0 <= i < s.len() implies #[trigger] t->Array_0[i] == encode_model(
                s[i],
            ) by {}
            assert(toml_decodable(t));
            assert(toml_fits(t, room));
            assert(decode_model(t)->Sequence_0 =~= s);
        },
        HostModel::Mapping(m) => {
            assert forall|i: int| 0 <= i < m.len() implies host_valid(#[trigger] m[i].1)
                && host_encodable(m[i].1) && toml_decodable(encode_model(m[i].1)) && toml_fits(
                encode_model(m[i].1),
                room - 1,
            ) && decode_model(encode_model(m[i].1)) == m[i].1 by {
                lemma_round_trip(m[i].1, room - 1);
            }
            assert forall|i: int| 0 <= i < m.len() implies host_valid(#[trigger] m[i].0) by {}
            let t = encode_model(h);
            assert(t->Table_0.len() == m.len());
            assert forall|i: int| 0 <= i < m.len() implies #[trigger] t->Table_0[i] == (
                key_chars(m[i].0),
                encode_model(m[i].1),
            ) by {}
            assert(toml_decodable(t));
            assert(toml_fits(t, room));
            assert(decode_model(t)->Mapping_0 =~= m);
        },
        _ => {},
    }
}

/// Datetime combinations: date, time and offset `Z` decode to an aware UTC datetime;
/// date and time to a naive datetime; a date alone to a date; a time alone to a naive
/// time; a time with an offset but no date is invalid.
pub proof fn lemma_datetime_combinations(date: Date, time: Time, offset: Offset)
    ensures
        decode_model(
            TomlModel::Datetime(Datetime { date: Some(date), time: Some(time), offset: Some(Offset::Z) }),
        ) == HostModel::DateTime(date, host_time_of(time), Some(TzInfo::Utc)),
        decode_model(TomlModel::Datetime(Datetime { date: Some(date), time: Some(time), offset: None }))
            == HostModel::DateTime(date, host_time_of(time), None),
        decode_model(TomlModel::Datetime(Datetime { date: Some(date), time: None, offset: None }))
            == HostModel::Date(date),
        decode_model(TomlModel::Datetime(Datetime { date: None, time: Some(time), offset: None }))
            == HostModel::Time(host_time_of(time)),
        !datetime_valid(Datetime { date: None, time: Some(time), offset: Some(offset) }),
        !toml_decodable(TomlModel::Datetime(Datetime { date: None, time: Some(time), offset: Some(offset) })),
{
}

/// Text without any carriage return is left exactly as it is.
pub proof fn lemma_normalize_identity(s: Seq<char>)
    requires
        !s.contains('\r'),
    ensures
        crlf_collapsed(s) == s,
    decreases s.len(),
{
    if s.len() > 0 {
        assert(s[0] != '\r');
        assert(!s.drop_first().contains('\r')) by {
            if s.drop_first().contains('\r') {
                let k = choose|k: int| 0 <= k < s.drop_first().len() && s.drop_first()[k] == '\r';
                assert(s[k + 1] == '\r');
            }
        }
        lemma_normalize_identity(s.drop_first());
        assert(seq![s[0]] + s.drop_first() =~= s);
    }
}

/// Float handler: when every value the handler returns is a mapping or a sequence, no
/// host value is a decoding of a tree that holds a float, so decoding such a tree fails.
pub proof fn lemma_composite_handler_rejected<F: Fn(u64) -> Result<HostValue, String>>(
    t: TomlModel,
    h: HostModel,
    f: F,
)
    requires
        has_float(t),
        forall|b: u64, o: HostValue|
            #[trigger] call_ensures(f, (b,), Ok::<HostValue, String>(o)) ==> is_composite(o@),
    ensures
        !decodes_with(t, h, f),
    decreases t,
{
    match t {
        TomlModel::Float(bits) => {
            if decodes_with(t, h, f) {
                let o = choose|o: HostValue|
                    #[trigger] call_ensures(f, (bits,), Ok::<HostValue, String>(o)) && o@ == h;
                assert(is_composite(o@));
            }
        },
        TomlModel::Array(a) => {
            let i = choose|i: int| 0 <= i < a.len() && has_float(#[trigger] a[i]);
            if decodes_with(t, h, f) {
                lemma_composite_handler_rejected(a[i], h->Sequence_0[i], f);
            }
        },
        TomlModel::Table(m) => {
            let i = choose|i: int| 0 <= i < m.len() && has_float((#[trigger] m[i]).1);
            if decodes_with(t, h, f) {
                lemma_composite_handler_rejected(m[i].1, h->Mapping_0[i].1, f);
            }
        },
        _ => {},
    }
}

/// Float handler: a float decoded through a handler becomes exactly a scalar that the
/// handler returned for its bits.
pub proof fn lemma_scalar_handler_used<F: Fn(u64) -> Result<HostValue, String>>(
    bits: u64,
    h: HostModel,
    f: F,
)
    requires
        decodes_with(TomlModel::Float(bits), h, f),
    ensures
        !is_composite(h),
        exists|o: HostValue| #[trigger] call_ensures(f, (bits,), Ok::<HostValue, String>(o)) && o@ == h,
{
}

/// `k` containers nested in one another, arrays and mappings in turn, around an integer.
pub open spec fn nested(k: nat) -> HostModel
    decreases k,
{
    if k == 0 {
        HostModel::Int(0)
    } else if k % 2 == 1 {
        HostModel::Sequence(seq![nested((k - 1) as nat)])
    } else {
        HostModel::Mapping(seq![(HostModel::Str(seq!['k']), nested((k - 1) as nat))])
    }
}

/// Recursion bound: `k` nested non-empty containers fit within `room` levels exactly
/// when `k` is at most `room`; with the ceiling of 999 levels, 999 nested containers
/// convert both ways and 1000 fail.
pub proof fn lemma_nesting_bound(k: nat, room: int)
    requires
        room >= 0,
    ensures
        plain(nested(k)),
        host_fits(nested(k), room) <==> k <= room,
        toml_fits(encode_model(nested(k)), room) <==> k <= room,
    decreases k,
{
    if k > 0 {
        if room >= 1 {
            lemma_nesting_bound((k - 1) as nat, room - 1);
        } else {
            lemma_nesting_bound((k - 1) as nat, 0);
        }
        let inner = nested((k - 1) as nat);
        let t = encode_model(nested(k));
        if k % 2 == 1 {
            assert(nested(k)->Sequence_0[0] == inner);
            assert(t->Array_0[0] == encode_model(inner));
        } else {
            assert(nested(k)->Mapping_0[0].1 == inner);
            assert(t->Table_0[0].1 == encode_model(inner));
        }
    }
}

/// Decoding keeps keys unique: a tree whose tables have unique keys decodes, with or
/// without a float handler, to a value whose mappings have unique keys.
pub proof fn lemma_decode_keeps_keys_unique<F: Fn(u64) -> Result<HostValue, String>>(
    t: TomlModel,
    h: HostModel,
    f: F,
)
    requires
        toml_wf(t),
        decodes_with(t, h, f) || (toml_decodable(t) && h == decode_model(t)),
    ensures
        host_wf(h),
    decreases t,
{
    match t {
        TomlModel::Array(a) => {
            let hs = h->Sequence_0;
            if !decodes_with(t, h, f) {
                assert forall|i: int| 0 <= i < a.len() implies #[trigger] hs[i] == decode_model(a[i]) by {}
            }
            assert forall|i: int| 0 <= i < hs.len() implies host_wf(#[trigger] hs[i]) by {
                lemma_decode_keeps_keys_unique(a[i], hs[i], f);
            }
        },
        TomlModel::Table(m) => {
            let hm = h->Mapping_0;
            if !decodes_with(t, h, f) {
                assert forall|i: int| 0 <= i < m.len() implies #[trigger] hm[i] == (
                    HostModel::Str(m[i].0),
                    decode_model(m[i].1),
                ) by {}
            }
            assert forall|i: int| 0 <= i < hm.len() implies host_wf((#[trigger] hm[i]).1) by {
                lemma_decode_keeps_keys_unique(m[i].1, hm[i].1, f);
            }
            assert forall|i: int, j: int| 0 <= i < j < hm.len() implies (#[trigger] hm[i]).0
                != (#[trigger] hm[j]).0 by {
                assert(m[i].0 != m[j].0);
            }
        },
        TomlModel::Datetime(d) => {},
        _ => {},
    }
}

/// Encoding keeps keys unique: a value whose mappings have unique keys encodes to a tree
/// whose tables have unique keys.
pub proof fn lemma_encode_keeps_keys_unique(h: HostModel)
    requires
        host_wf(h),
        host_encodable(h),
    ensures
        toml_wf(encode_model(h)),
    decreases h,
{
    match h {
        HostModel::Sequence(s) => {
            let t = encode_model(h)->Array_0;
            assert forall|i: int| 0 <= i < t.len() implies toml_wf(#[trigger] t[i]) by {
                lemma_encode_keeps_keys_unique(s[i]);
            }
        },
        HostModel::Mapping(m) => {
            let t = encode_model(h)->Table_0;
            assert forall|i: int| 0 <= i < t.len() implies toml_wf((#[trigger] t[i]).1) by {
                lemma_encode_keeps_keys_unique(m[i].1);
            }
            assert forall|i: int, j: int| 0 <= i < j < t.len() implies (#[trigger] t[i]).0
                != (#[trigger] t[j]).0 by {
                assert(m[i].0 != m[j].0);
                assert(m[i].0 is Str && m[j].0 is Str);
            }
        },
        _ => {},
    }
}

/// A host value made of strings, integers, booleans, floats, valid dates, times and
/// datetimes, sequences, and mappings with string keys.
pub open spec fn convertible(h: HostModel) -> bool
    decreases h,
{
    match h {
        HostModel::Sequence(s) => forall|i: int| 0 <= i < s.len() ==> convertible(#[trigger] s[i]),
        HostModel::Mapping(m) => forall|i: int|
            0 <= i < m.len() ==> (#[trigger] m[i]).0 is Str && convertible(m[i].1),
        HostModel::DateTime(_, t, _) => valid_host_time(t),
        HostModel::Time(t) => valid_host_time(t),
        HostModel::Other(_) => false,
        _ => true,
    }
}

/// The timezone a datetime has after a round trip: UTC stays UTC, a fixed displacement
/// is cut to whole minutes, and one whose minutes do not fit the document is dropped.
pub open spec fn tz_after_round_trip(z: Option<TzInfo>) -> Option<TzInfo> {
    match z {
        Some(z) => match offset_of_tz(z) {
            Some(o) => Some(tz_of_offset(o)),
            None => None,
        },
        None => None,
    }
}

/// `h` as a round trip gives it back: the same, but for the timezone of each datetime.
pub open spec fn round_tripped(h: HostModel) -> HostModel
    decreases h,
{
    match h {
        HostModel::Sequence(s) => HostModel::Sequence(
            Seq::new(
                s.len(),
                |i: int|
                    if 0 <= i < s.len() {
                        round_tripped(s[i])
                    } else {
                        HostModel::Bool(false)
                    },
            ),
        ),
        HostModel::Mapping(m) => HostModel::Mapping(
            Seq::new(
                m.len(),
                |i: int|
                    if 0 <= i < m.len() {
                        (m[i].0, round_tripped(m[i].1))
                    } else {
                        (HostModel::Bool(false), HostModel::Bool(false))
                    },
            ),
        ),
        HostModel::DateTime(d, t, z) => HostModel::DateTime(d, t, tz_after_round_trip(z)),
        _ => h,
    }
}

/// Round trip with dates and times: a convertible host value within the nesting bound
/// encodes, the tree decodes within the same bound, and decoding gives back the value,
/// every field of every date and time included, with each datetime's offset cut to
/// whole minutes.
pub proof fn lemma_round_trip_with_datetimes(h: HostModel, room: int)
    requires
        convertible(h),
        host_fits(h, room),
    ensures
        host_valid(h),
        host_encodable(h),
        toml_decodable(encode_model(h)),
        toml_fits(encode_model(h), room),
        decode_model(encode_model(h)) == round_tripped(h),
    decreases h,
{
    match h {
        HostModel::Sequence(s) => {
            assert forall|i: int| 0 <= i < s.len() implies host_valid(#[trigger] s[i])
                && host_encodable(s[i]) && toml_decodable(encode_model(s[i])) && toml_fits(
                encode_model(s[i]),
                room - 1,
            ) && decode_model(encode_model(s[i])) == round_tripped(s[i]) by {
                lemma_round_trip_with_datetimes(s[i], room - 1);
            }
            let t = encode_model(h);
            assert(t->Array_0.len() == s.len());
            assert forall|i: int| 0 <= i < s.len() implies #[trigger] t->Array_0[i] == encode_model(
                s[i],
            ) by {}
            assert(toml_decodable(t));
            assert(toml_fits(t, room));
            assert(decode_model(t)->Sequence_0 =~= round_tripped(h)->Sequence_0);
        },
        HostModel::Mapping(m) => {
            assert forall|i: int| 0 <= i < m.len() implies host_valid(#[trigger] m[i].1)
                && host_encodable(m[i].1) && toml_decodable(encode_model(m[i].1)) && toml_fits(
                encode_model(m[i].1),
                room - 1,
            ) && decode_model(encode_model(m[i].1)) == round_tripped(m[i].1) by {
                lemma_round_trip_with_datetimes(m[i].1, room - 1);
            }
            assert forall|i: int| 0 <= i < m.len() implies host_valid(#[trigger] m[i].0) by {}
            let t = encode_model(h);
            assert(t->Table_0.len() == m.len());
            assert forall|i: int| 0 <= i < m.len() implies #[trigger] t->Table_0[i] == (
                key_chars(m[i].0),
                encode_model(m[i].1),
            ) by {}
            assert(toml_decodable(t));
            assert(toml_fits(t, room));
            assert(decode_model(t)->Mapping_0 =~= round_tripped(h)->Mapping_0);
        },
        HostModel::DateTime(d, t, z) => {
            lemma_time_round_trip(t);
        },
        HostModel::Time(t) => {
            lemma_time_round_trip(t);
        },
        _ => {},
    }
}

proof fn lemma_time_round_trip(t: crate::model::HostTime)
    requires
        valid_host_time(t),
    ensures
        host_time_of(doc_time_of(t)) == t,
{
    let m = t.microsecond;
    assert((m * 1000) as u32 / 1000 == m) by (nonlinear_arith)
        requires
            m < 1_000_000,
    ;
}

} // verus!
