use vstd::prelude::*;
use crate::datetime::{create_timezone_from_offset, host_time_of, make_host_time, tz_of_offset};
use crate::encode::copy_string;
use crate::guard::{RecursionGuard, RECURSION_LIMIT};
use crate::model::{
    lemma_host_view, lemma_toml_view, Datetime, HostModel, HostValue, TomlModel, TomlValue,
};

verus! {

broadcast use vstd::std_specs::vec::axiom_vec_index_decreases;

/// Why a document tree could not be decoded.
#[derive(Debug, PartialEq, Eq)]
pub enum DecodeError {
    /// A datetime holds a combination of date, time and offset that has no host form.
    InvalidDatetimeFormat,
    /// Containers nest deeper than the recursion ceiling.
    RecursionExceeded,
    /// The float handler returned a mapping or a sequence.
    ParseFloatReturnedComposite,
    /// The float handler failed; holds its message.
    FloatHandlerFailed(String),
}

/// A mapping or a sequence.
pub open spec fn is_composite(h: HostModel) -> bool {
    h is Mapping || h is Sequence
}

/// The valid combinations: date and time (with or without offset), date alone, or
/// time alone.
pub open spec fn datetime_valid(d: Datetime) -> bool {
    match (d.date, d.time, d.offset) {
        (Some(_), Some(_), _) => true,
        (Some(_), None, None) => true,
        (None, Some(_), None) => true,
        _ => false,
    }
}

/// The host value of a valid document datetime.
pub open spec fn decode_datetime(d: Datetime) -> HostModel {
    match (d.date, d.time, d.offset) {
        (Some(date), Some(time), Some(o)) => HostModel::DateTime(
            date,
            host_time_of(time),
            Some(tz_of_offset(o)),
        ),
        (Some(date), Some(time), None) => HostModel::DateTime(date, host_time_of(time), None),
        (Some(date), None, _) => HostModel::Date(date),
        (None, Some(time), _) => HostModel::Time(host_time_of(time)),
        _ => HostModel::Bool(false),
    }
}

/// Every datetime in `t` is valid.
pub open spec fn toml_decodable(t: TomlModel) -> bool
    decreases t,
{
    match t {
        TomlModel::Datetime(d) => datetime_valid(d),
        TomlModel::Array(a) => forall|i: int| 0 <= i < a.len() ==> toml_decodable(#[trigger] a[i]),
        TomlModel::Table(m) => forall|i: int|
            0 <= i < m.len() ==> toml_decodable(#[trigger] m[i].1),
        _ => true,
    }
}

/// Every non-empty array or table of `t` lies within `room` levels of nesting.
pub open spec fn toml_fits(t: TomlModel, room: int) -> bool
    decreases t,
{
    match t {
        TomlModel::Array(a) => a.len() == 0 || (room >= 1 && forall|i: int|
            0 <= i < a.len() ==> toml_fits(#[trigger] a[i], room - 1)),
        TomlModel::Table(m) => m.len() == 0 || (room >= 1 && forall|i: int|
            0 <= i < m.len() ==> toml_fits(#[trigger] m[i].1, room - 1)),
        _ => true,
    }
}

/// The host value of a decodable document tree, floats kept as they are.
pub open spec fn decode_model(t: TomlModel) -> HostModel
    decreases t,
{
    match t {
        TomlModel::String(s) => HostModel::Str(s),
        TomlModel::Integer(i) => HostModel::Int(i),
        TomlModel::Float(f) => HostModel::Float(f),
        TomlModel::Boolean(b) => HostModel::Bool(b),
        TomlModel::Datetime(d) => decode_datetime(d),
        TomlModel::Array(a) => HostModel::Sequence(
            Seq::new(
                a.len(),
                |i: int|
                    if 0 <= i < a.len() {
                        decode_model(a[i])
                    } else {
                        HostModel::Bool(false)
                    },
            ),
        ),
        TomlModel::Table(m) => HostModel::Mapping(
            Seq::new(
                m.len(),
                |i: int|
                    if 0 <= i < m.len() {
                        (HostModel::Str(m[i].0), decode_model(m[i].1))
                    } else {
                        (HostModel::Bool(false), HostModel::Bool(false))
                    },
            ),
        ),
    }
}

/// `h` is what decoding `t` may give when each float goes through the handler `f`: each
/// float becomes a non-composite value that `f` returned for its bits, everything else as
/// in [`decode_model`].
pub open spec fn decodes_with<F: Fn(u64) -> Result<HostValue, String>>(
    t: TomlModel,
    h: HostModel,
    f: F,
) -> bool
    decreases t,
{
    match t {
        TomlModel::Float(bits) => !is_composite(h) && exists|o: HostValue|
            #[trigger] call_ensures(f, (bits,), Ok::<HostValue, String>(o)) && o@ == h,
        TomlModel::Array(a) => h is Sequence && h->Sequence_0.len() == a.len() && forall|i: int|
            0 <= i < a.len() ==> decodes_with(#[trigger] a[i], h->Sequence_0[i], f),
        TomlModel::Table(m) => h is Mapping && h->Mapping_0.len() == m.len() && forall|i: int|
            0 <= i < m.len() ==> h->Mapping_0[i].0 == HostModel::Str(m[i].0) && decodes_with(
                #[trigger] m[i].1,
                h->Mapping_0[i].1,
                f,
            ),
        _ => h == decode_model(t),
    }
}

/// `t` holds a float somewhere.
pub open spec fn has_float(t: TomlModel) -> bool
    decreases t,
{
    match t {
        TomlModel::Float(_) => true,
        TomlModel::Array(a) => exists|i: int| 0 <= i < a.len() && has_float(#[trigger] a[i]),
        TomlModel::Table(m) => exists|i: int| 0 <= i < m.len() && has_float((#[trigger] m[i]).1),
        _ => false,
    }
}

/// Some value that `f` returns for some float is a mapping or a sequence.
pub open spec fn gave_composite<F: Fn(u64) -> Result<HostValue, String>>(f: F) -> bool {
    exists|b: u64, o: HostValue|
        #[trigger] call_ensures(f, (b,), Ok::<HostValue, String>(o)) && is_composite(o@)
}

/// `f` fails with message `m` for some float.
pub open spec fn gave_error<F: Fn(u64) -> Result<HostValue, String>>(f: F, m: String) -> bool {
    exists|b: u64| #[trigger] call_ensures(f, (b,), Err::<HostValue, String>(m))
}

/// Accepts what a float handler returned, unless it is a mapping or a sequence.
pub fn check_parsed_float(v: HostValue) -> (r: Result<HostValue, DecodeError>)
    ensures
        is_composite(v@) ==> r == Err::<HostValue, DecodeError>(
            DecodeError::ParseFloatReturnedComposite,
        ),
        !is_composite(v@) ==> r is Ok && r->Ok_0@ == v@,
{
    proof {
        lemma_host_view(v);
    }
    match v {
        HostValue::Mapping(_) => Err(DecodeError::ParseFloatReturnedComposite),
        HostValue::Sequence(_) => Err(DecodeError::ParseFloatReturnedComposite),
        _ => Ok(v),
    }
}

/// Converts a document datetime into a host date, time or datetime.
fn decode_datetime_value(d: &Datetime) -> (r: Result<HostValue, DecodeError>)
    ensures
        r is Ok <==> datetime_valid(*d),
        r is Ok ==> r->Ok_0@ == decode_datetime(*d),
        r is Err ==> r == Err::<HostValue, DecodeError>(DecodeError::InvalidDatetimeFormat),
{
    match (d.date, d.time, d.offset) {
        (Some(date), Some(time), Some(offset)) => {
            let tz = create_timezone_from_offset(offset);
            Ok(HostValue::DateTime(date, make_host_time(time), Some(tz)))
        },
        (Some(date), Some(time), None) => Ok(HostValue::DateTime(date, make_host_time(time), None)),
        (Some(date), None, None) => Ok(HostValue::Date(date)),
        (None, Some(time), None) => Ok(HostValue::Time(make_host_time(time))),
        _ => Err(DecodeError::InvalidDatetimeFormat),
    }
}

/// Converts a document tree into a host value, counting nesting on `guard`. Each float
/// goes through `parse_float` when one is given, and is kept as it is otherwise.
pub fn decode_value<F: Fn(u64) -> Result<HostValue, String>>(
    t: &TomlValue,
    parse_float: Option<&F>,
    guard: &mut RecursionGuard,
) -> (r: Result<HostValue, DecodeError>)
    requires
        old(guard).wf(),
        parse_float matches Some(f) ==> forall|b: u64| f.requires((b,)),
    ensures
        final(guard).limit == old(guard).limit,
        final(guard).wf(),
        r is Ok ==> toml_decodable(t@) && toml_fits(t@, old(guard).room()) && final(guard).current
            == old(guard).current,
        parse_float is None || !has_float(t@) ==> (r is Ok <==> toml_decodable(t@) && toml_fits(
            t@,
            old(guard).room(),
        )),
        (parse_float is None || !has_float(t@)) && r is Ok ==> r->Ok_0@ == decode_model(t@),
        parse_float matches Some(f) ==> (r is Ok ==> decodes_with(t@, r->Ok_0@, *f)),
        r matches Err(DecodeError::InvalidDatetimeFormat) ==> !toml_decodable(t@),
        r matches Err(DecodeError::RecursionExceeded) ==> !toml_fits(t@, old(guard).room()),
        r matches Err(DecodeError::ParseFloatReturnedComposite) ==> has_float(t@) && (
        parse_float matches Some(f) && gave_composite(*f)),
        r matches Err(DecodeError::FloatHandlerFailed(m)) ==> has_float(t@) && (
        parse_float matches Some(f) && gave_error(*f, m)),
        r is Err && toml_decodable(t@) && toml_fits(t@, old(guard).room()) ==> (r matches Err(
            DecodeError::ParseFloatReturnedComposite,
        ) || r matches Err(DecodeError::FloatHandlerFailed(_))),
    decreases t,
{
    match t {
        TomlValue::String(s) => Ok(HostValue::Str(copy_string(s))),
        TomlValue::Integer(i) => Ok(HostValue::Int(*i)),
        TomlValue::Boolean(b) => Ok(HostValue::Bool(*b)),
        TomlValue::Float(bits) => {
            match parse_float {
                Some(f) => {
                    match f(*bits) {
                        Ok(o) => {
                            let r = check_parsed_float(o);
                            r
                        },
                        Err(msg) => Err(DecodeError::FloatHandlerFailed(msg)),
                    }
                },
                None => Ok(HostValue::Float(*bits)),
            }
        },
        TomlValue::Datetime(d) => decode_datetime_value(d),
        TomlValue::Array(a) => {
            proof {
                lemma_toml_view(*t);
            }
            let ghost tm = t@;
            if a.len() == 0 {
                let r = HostValue::Sequence(Vec::new());
                proof {
                    lemma_host_view(r);
                }
                assert(r@ == decode_model(t@)) by {
                    assert(r@->Sequence_0 =~= decode_model(t@)->Sequence_0);
                }
                return Ok(r);
            }
            if guard.enter().is_err() {
                return Err(DecodeError::RecursionExceeded);
            }
            let mut out: Vec<HostValue> = Vec::new();
            let mut i: usize = 0;
            while i < a.len()
                invariant
                    *t == TomlValue::Array(*a),
                    tm == t@,
                    tm is Array,
                    tm->Array_0.len() == a.len(),
                    forall|j: int| 0 <= j < a.len() ==> #[trigger] tm->Array_0[j] == a[j]@,
                    parse_float matches Some(f) ==> forall|b: u64| f.requires((b,)),
                    0 <= i <= a.len(),
                    guard.limit == old(guard).limit,
                    guard.current == old(guard).current + 1,
                    guard.wf(),
                    out@.len() == i,
                    forall|j: int| 0 <= j < i ==> toml_decodable(#[trigger] a[j]@),
                    forall|j: int| 0 <= j < i ==> toml_fits(#[trigger] a[j]@, old(guard).room() - 1),
                    parse_float is None || !has_float(tm) ==> forall|j: int|
                        0 <= j < i ==> (#[trigger] out@[j])@ == decode_model(a[j]@),
                    parse_float matches Some(f) ==> forall|j: int|
                        0 <= j < i ==> decodes_with(a[j]@, (#[trigger] out@[j])@, *f),
                decreases a.len() - i,
            {
                let v = &a[i];
                proof {
                    assert(decreases_to!(a => a[i as int]));
                    assert(has_float(tm->Array_0[i as int]) ==> has_float(tm));
                }
                let item = match decode_value(v, parse_float, guard) {
                    Ok(item) => item,
                    Err(e) => {
                        proof {
                            assert(tm->Array_0[i as int] == v@);
                            assert(toml_decodable(tm) ==> toml_decodable(tm->Array_0[i as int]));
                            assert(toml_fits(tm, old(guard).room()) ==> toml_fits(
                                tm->Array_0[i as int],
                                old(guard).room() - 1,
                            ));
                        }
                        return Err(e);
                    },
                };
                out.push(item);
                i = i + 1;
            }
            guard.exit();
            let r = HostValue::Sequence(out);
            proof {
                lemma_host_view(r);
                if parse_float is None || !has_float(tm) {
                    assert(r@->Sequence_0 =~= decode_model(t@)->Sequence_0);
                }
            }
            Ok(r)
        },
        TomlValue::Table(m) => {
            proof {
                lemma_toml_view(*t);
            }
            let ghost tm = t@;
            if m.len() == 0 {
                let r = HostValue::Mapping(Vec::new());
                proof {
                    lemma_host_view(r);
                }
                assert(r@ == decode_model(t@)) by {
                    assert(r@->Mapping_0 =~= decode_model(t@)->Mapping_0);
                }
                return Ok(r);
            }
            if guard.enter().is_err() {
                return Err(DecodeError::RecursionExceeded);
            }
            let mut out: Vec<(HostValue, HostValue)> = Vec::new();
            let mut i: usize = 0;
            while i < m.len()
                invariant
                    *t == TomlValue::Table(*m),
                    tm == t@,
                    tm is Table,
                    tm->Table_0.len() == m.len(),
                    forall|j: int|
                        0 <= j < m.len() ==> #[trigger] tm->Table_0[j] == (m[j].0@, m[j].1@),
                    parse_float matches Some(f) ==> forall|b: u64| f.requires((b,)),
                    0 <= i <= m.len(),
                    guard.limit == old(guard).limit,
                    guard.current == old(guard).current + 1,
                    guard.wf(),
                    out@.len() == i,
                    forall|j: int| 0 <= j < i ==> toml_decodable(#[trigger] m[j].1@),
                    forall|j: int|
                        0 <= j < i ==> toml_fits(#[trigger] m[j].1@, old(guard).room() - 1),
                    forall|j: int|
                        0 <= j < i ==> (#[trigger] out@[j]).0@ == HostModel::Str(m[j].0@),
                    parse_float is None || !has_float(tm) ==> forall|j: int|
                        0 <= j < i ==> (#[trigger] out@[j]).1@ == decode_model(m[j].1@),
                    parse_float matches Some(f) ==> forall|j: int|
                        0 <= j < i ==> decodes_with(m[j].1@, (#[trigger] out@[j]).1@, *f),
                decreases m.len() - i,
            {
                let (k, v) = &m[i];
                proof {
                    assert(decreases_to!(m => m[i as int]));
                    assert(has_float(tm->Table_0[i as int].1) ==> has_float(tm));
                }
                let item = match decode_value(v, parse_float, guard) {
                    Ok(item) => item,
                    Err(e) => {
                        proof {
                            assert(tm->Table_0[i as int].1 == v@);
                            assert(toml_decodable(tm) ==> toml_decodable(tm->Table_0[i as int].1));
                            assert(toml_fits(tm, old(guard).room()) ==> toml_fits(
                                tm->Table_0[i as int].1,
                                old(guard).room() - 1,
                            ));
                        }
                        return Err(e);
                    },
                };
                out.push((HostValue::Str(copy_string(k)), item));
                i = i + 1;
            }
            guard.exit();
            let r = HostValue::Mapping(out);
            proof {
                lemma_host_view(r);
                if parse_float is None || !has_float(tm) {
                    assert(r@->Mapping_0 =~= decode_model(t@)->Mapping_0);
                }
            }
            Ok(r)
        },
    }
}

/// Converts a document tree into a host value, with a fresh recursion guard.
pub fn toml_to_python<F: Fn(u64) -> Result<HostValue, String>>(
    t: &TomlValue,
    parse_float: Option<&F>,
) -> (r: Result<HostValue, DecodeError>)
    requires
        parse_float matches Some(f) ==> forall|b: u64| f.requires((b,)),
    ensures
        r is Ok ==> toml_decodable(t@) && toml_fits(t@, RECURSION_LIMIT as int),
        parse_float is None || !has_float(t@) ==> (r is Ok <==> toml_decodable(t@) && toml_fits(
            t@,
            RECURSION_LIMIT as int,
        )),
        (parse_float is None || !has_float(t@)) && r is Ok ==> r->Ok_0@ == decode_model(t@),
        parse_float matches Some(f) ==> (r is Ok ==> decodes_with(t@, r->Ok_0@, *f)),
        r matches Err(DecodeError::InvalidDatetimeFormat) ==> !toml_decodable(t@),
        r matches Err(DecodeError::RecursionExceeded) ==> !toml_fits(t@, RECURSION_LIMIT as int),
        r matches Err(DecodeError::ParseFloatReturnedComposite) ==> has_float(t@) && (
        parse_float matches Some(f) && gave_composite(*f)),
        r matches Err(DecodeError::FloatHandlerFailed(m)) ==> has_float(t@) && (
        parse_float matches Some(f) && gave_error(*f, m)),
        r is Err && toml_decodable(t@) && toml_fits(t@, RECURSION_LIMIT as int) ==> (r matches Err(
            DecodeError::ParseFloatReturnedComposite,
        ) || r matches Err(DecodeError::FloatHandlerFailed(_))),
{
    let mut guard = RecursionGuard::default();
    decode_value(t, parse_float, &mut guard)
}

} // verus!
