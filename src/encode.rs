use vstd::prelude::*;
use crate::datetime::{
    doc_time_of, make_time, offset_of_tz, to_offset, valid_host_time,
};
use crate::guard::{RecursionGuard, RECURSION_LIMIT};
use crate::model::{kind_name_of, lemma_host_view, Datetime, HostModel, HostValue, TomlModel, TomlValue};

verus! {

broadcast use vstd::std_specs::vec::axiom_vec_index_decreases;

/// Why a host value could not be encoded.
#[derive(Debug, PartialEq, Eq)]
pub enum EncodeError {
    /// Containers nest deeper than the recursion ceiling.
    RecursionExceeded,
    /// A mapping key is not a string; holds the key's type name.
    NonStringKey(String),
    /// A value of a type that has no document form; holds its type name.
    Unsupported(String),
    /// A table marked inline would hold a block table.
    InlineTableContent,
    /// A path marked inline names no node of the document.
    PathNotFound(String),
    /// A path marked inline names a node that is not a table.
    PathNotTable(String),
}

/// Every time in `h` is valid.
pub open spec fn host_valid(h: HostModel) -> bool
    decreases h,
{
    match h {
        HostModel::Mapping(m) => forall|i: int|
            0 <= i < m.len() ==> host_valid(#[trigger] m[i].0) && host_valid(m[i].1),
        HostModel::Sequence(s) => forall|i: int| 0 <= i < s.len() ==> host_valid(#[trigger] s[i]),
        HostModel::DateTime(_, t, _) => valid_host_time(t),
        HostModel::Time(t) => valid_host_time(t),
        _ => true,
    }
}

/// Every mapping key in `h` is a string and no value in it is of an unsupported type.
pub open spec fn host_encodable(h: HostModel) -> bool
    decreases h,
{
    match h {
        HostModel::Mapping(m) => forall|i: int|
            0 <= i < m.len() ==> (#[trigger] m[i]).0 is Str && host_encodable(m[i].1),
        HostModel::Sequence(s) => forall|i: int|
            0 <= i < s.len() ==> host_encodable(#[trigger] s[i]),
        HostModel::Other(_) => false,
        _ => true,
    }
}

/// Every non-empty container of `h` lies within `room` levels of nesting.
pub open spec fn host_fits(h: HostModel, room: int) -> bool
    decreases h,
{
    match h {
        HostModel::Mapping(m) => m.len() == 0 || (room >= 1 && forall|i: int|
            0 <= i < m.len() ==> host_fits(#[trigger] m[i].1, room - 1)),
        HostModel::Sequence(s) => s.len() == 0 || (room >= 1 && forall|i: int|
            0 <= i < s.len() ==> host_fits(#[trigger] s[i], room - 1)),
        _ => true,
    }
}

/// `n` is the type name of a mapping key in `h` that is not a string.
pub open spec fn has_bad_key(h: HostModel, n: Seq<char>) -> bool
    decreases h,
{
    match h {
        HostModel::Mapping(m) => exists|i: int|
            0 <= i < m.len() && ((!((#[trigger] m[i]).0 is Str) && kind_name_of(m[i].0) == n)
                || has_bad_key(m[i].1, n)),
        HostModel::Sequence(s) => exists|i: int| 0 <= i < s.len() && has_bad_key(#[trigger] s[i], n),
        _ => false,
    }
}

/// `n` is the type name of a value in `h` that has no document form.
pub open spec fn has_unsupported(h: HostModel, n: Seq<char>) -> bool
    decreases h,
{
    match h {
        HostModel::Mapping(m) => exists|i: int|
            0 <= i < m.len() && has_unsupported((#[trigger] m[i]).1, n),
        HostModel::Sequence(s) => exists|i: int|
            0 <= i < s.len() && has_unsupported(#[trigger] s[i], n),
        HostModel::Other(name) => name == n,
        _ => false,
    }
}

/// The characters of a string key (empty for a key of another type).
pub open spec fn key_chars(k: HostModel) -> Seq<char> {
    match k {
        HostModel::Str(s) => s,
        _ => Seq::empty(),
    }
}

/// The document datetime of a host date, time or datetime.
pub open spec fn host_datetime(h: HostModel) -> Datetime {
    match h {
        HostModel::DateTime(d, t, z) => Datetime {
            date: Some(d),
            time: Some(doc_time_of(t)),
            offset: match z {
                Some(z) => offset_of_tz(z),
                None => None,
            },
        },
        HostModel::Date(d) => Datetime { date: Some(d), time: None, offset: None },
        HostModel::Time(t) => Datetime { date: None, time: Some(doc_time_of(t)), offset: None },
        _ => Datetime { date: None, time: None, offset: None },
    }
}

/// The value-only document tree of an encodable host value.
pub open spec fn encode_model(h: HostModel) -> TomlModel
    decreases h,
{
    match h {
        HostModel::Str(s) => TomlModel::String(s),
        HostModel::Bool(b) => TomlModel::Boolean(b),
        HostModel::Int(i) => TomlModel::Integer(i),
        HostModel::Float(f) => TomlModel::Float(f),
        HostModel::Mapping(m) => TomlModel::Table(
            Seq::new(
                m.len(),
                |i: int|
                    if 0 <= i < m.len() {
                        (key_chars(m[i].0), encode_model(m[i].1))
                    } else {
                        (Seq::empty(), TomlModel::Boolean(false))
                    },
            ),
        ),
        HostModel::Sequence(s) => TomlModel::Array(
            Seq::new(
                s.len(),
                |i: int|
                    if 0 <= i < s.len() {
                        encode_model(s[i])
                    } else {
                        TomlModel::Boolean(false)
                    },
            ),
        ),
        HostModel::Other(_) => TomlModel::Boolean(false),
        _ => TomlModel::Datetime(host_datetime(h)),
    }
}

/// Converts a host date, time or datetime into a document datetime.
pub(crate) fn encode_datetime(h: &HostValue) -> (r: Datetime)
    requires
        h is DateTime || h is Date || h is Time,
        host_valid(h@),
    ensures
        r == host_datetime(h@),
{
    match h {
        HostValue::DateTime(d, t, z) => {
            let offset = match z {
                Some(z) => to_offset(*z),
                None => None,
            };
            Datetime { date: Some(*d), time: Some(make_time(*t)), offset }
        },
        HostValue::Date(d) => Datetime { date: Some(*d), time: None, offset: None },
        HostValue::Time(t) => Datetime { date: None, time: Some(make_time(*t)), offset: None },
        _ => Datetime { date: None, time: None, offset: None },
    }
}

/// Copies a string.
pub(crate) fn copy_string(s: &String) -> (r: String)
    ensures
        r@ == s@,
{
    s.clone()
}

/// Converts a host value into a value-only document tree, counting nesting on `guard`.
#[verifier::rlimit(50)]
pub fn encode_value(h: &HostValue, guard: &mut RecursionGuard) -> (r: Result<TomlValue, EncodeError>)
    requires
        old(guard).wf(),
        host_valid(h@),
    ensures
        final(guard).limit == old(guard).limit,
        final(guard).wf(),
        r is Ok <==> host_encodable(h@) && host_fits(h@, old(guard).room()),
        r is Ok ==> r->Ok_0@ == encode_model(h@) && final(guard).current == old(guard).current,
        r matches Err(EncodeError::RecursionExceeded) ==> !host_fits(h@, old(guard).room()),
        r matches Err(EncodeError::NonStringKey(n)) ==> !host_encodable(h@) && has_bad_key(h@, n@),
        r matches Err(EncodeError::Unsupported(n)) ==> !host_encodable(h@) && has_unsupported(h@, n@),
        r is Err ==> (r matches Err(EncodeError::RecursionExceeded) || r matches Err(
            EncodeError::NonStringKey(_),
        ) || r matches Err(EncodeError::Unsupported(_))),
    decreases h,
{
    match h {
        HostValue::Str(s) => Ok(TomlValue::String(copy_string(s))),
        HostValue::Bool(b) => Ok(TomlValue::Boolean(*b)),
        HostValue::Int(i) => Ok(TomlValue::Integer(*i)),
        HostValue::Float(f) => Ok(TomlValue::Float(*f)),
        HostValue::Mapping(m) => {
            proof {
                lemma_host_view(*h);
            }
            let ghost hm = h@;
            if m.len() == 0 {
                let out: Vec<(String, TomlValue)> = Vec::new();
                let r = TomlValue::Table(out);
                assert(r@ == encode_model(h@)) by {
                    assert(r@->Table_0 =~= encode_model(h@)->Table_0);
                }
                return Ok(r);
            }
            if guard.enter().is_err() {
                return Err(EncodeError::RecursionExceeded);
            }
            let mut out: Vec<(String, TomlValue)> = Vec::new();
            let mut i: usize = 0;
            while i < m.len()
                invariant
                    h@ == hm,
                    host_valid(hm),
                    *h == HostValue::Mapping(*m),
                    hm is Mapping,
                    hm->Mapping_0.len() == m.len(),
                    forall|j: int|
                        0 <= j < m.len() ==> #[trigger] hm->Mapping_0[j] == (m[j].0@, m[j].1@),
                    0 <= i <= m.len(),
                    guard.limit == old(guard).limit,
                    guard.current == old(guard).current + 1,
                    guard.wf(),
                    out@.len() == i,
                    forall|j: int| 0 <= j < i ==> (#[trigger] m[j]).0@ is Str,
                    forall|j: int| 0 <= j < i ==> host_encodable(#[trigger] m[j].1@),
                    forall|j: int| 0 <= j < i ==> host_fits(#[trigger] m[j].1@, old(guard).room() - 1),
                    forall|j: int|
                        0 <= j < i ==> (#[trigger] out@[j]).0@ == key_chars(m[j].0@) && out@[j].1@
                            == encode_model(m[j].1@),
                decreases m.len() - i,
            {
                let (k, v) = &m[i];
                assert(hm->Mapping_0[i as int] == (k@, v@));
                assert(host_valid(hm->Mapping_0[i as int].0));
                proof {
                    assert(decreases_to!(m => m[i as int]));

                }
                let key = match k {
                    HostValue::Str(s) => copy_string(s),
                    _ => {
                        let name = k.kind_name();
                        proof {
                            assert(!(hm->Mapping_0[i as int].0 is Str) && kind_name_of(
                                hm->Mapping_0[i as int].0,
                            ) == name@);
                        }
                        return Err(EncodeError::NonStringKey(name));
                    },
                };
                let item = match encode_value(v, guard) {
                    Ok(item) => item,
                    Err(e) => {
                        proof {
                            assert(hm->Mapping_0[i as int].1 == v@);
                        }
                        return Err(e);
                    },
                };
                out.push((key, item));
                i = i + 1;
            }
            guard.exit();
            let r = TomlValue::Table(out);
            assert(r@ == encode_model(h@)) by {
                assert(r@->Table_0 =~= encode_model(h@)->Table_0);
            }
            Ok(r)
        },
        HostValue::Sequence(s) => {
            proof {
                lemma_host_view(*h);
            }
            let ghost hm = h@;
            if s.len() == 0 {
                let out: Vec<TomlValue> = Vec::new();
                let r = TomlValue::Array(out);
                assert(r@ == encode_model(h@)) by {
                    assert(r@->Array_0 =~= encode_model(h@)->Array_0);
                }
                return Ok(r);
            }
            if guard.enter().is_err() {
                return Err(EncodeError::RecursionExceeded);
            }
            let mut out: Vec<TomlValue> = Vec::new();
            let mut i: usize = 0;
            while i < s.len()
                invariant
                    h@ == hm,
                    host_valid(hm),
                    *h == HostValue::Sequence(*s),
                    hm is Sequence,
                    hm->Sequence_0.len() == s.len(),
                    forall|j: int| 0 <= j < s.len() ==> #[trigger] hm->Sequence_0[j] == s[j]@,
                    0 <= i <= s.len(),
                    guard.limit == old(guard).limit,
                    guard.current == old(guard).current + 1,
                    guard.wf(),
                    out@.len() == i,
                    forall|j: int| 0 <= j < i ==> host_encodable(#[trigger] s[j]@),
                    forall|j: int| 0 <= j < i ==> host_fits(#[trigger] s[j]@, old(guard).room() - 1),
                    forall|j: int| 0 <= j < i ==> (#[trigger] out@[j])@ == encode_model(s[j]@),
                decreases s.len() - i,
            {
                let v = &s[i];
                assert(hm->Sequence_0[i as int] == v@);
                proof {
                    assert(decreases_to!(s => s[i as int]));
                }
                let item = match encode_value(v, guard) {
                    Ok(item) => item,
                    Err(e) => {
                        proof {
                            assert(hm->Sequence_0[i as int] == v@);
                        }
                        return Err(e);
                    },
                };
                out.push(item);
                i = i + 1;
            }
            guard.exit();
            let r = TomlValue::Array(out);
            assert(r@ == encode_model(h@)) by {
                assert(r@->Array_0 =~= encode_model(h@)->Array_0);
            }
            Ok(r)
        },
        HostValue::Other(_) => Err(EncodeError::Unsupported(h.kind_name())),
        _ => Ok(TomlValue::Datetime(encode_datetime(h))),
    }
}

/// Converts a host value into a value-only document tree, with a fresh recursion guard.
pub fn python_to_toml_value(h: &HostValue) -> (r: Result<TomlValue, EncodeError>)
    requires
        host_valid(h@),
    ensures
        r is Ok <==> host_encodable(h@) && host_fits(h@, RECURSION_LIMIT as int),
        r is Ok ==> r->Ok_0@ == encode_model(h@),
        r matches Err(EncodeError::RecursionExceeded) ==> !host_fits(h@, RECURSION_LIMIT as int),
        r is Err && !(r matches Err(EncodeError::RecursionExceeded)) ==> !host_encodable(h@),
        r matches Err(EncodeError::NonStringKey(n)) ==> has_bad_key(h@, n@),
        r matches Err(EncodeError::Unsupported(n)) ==> has_unsupported(h@, n@),
{
    let mut guard = RecursionGuard::default();
    encode_value(h, &mut guard)
}

proof fn lemma_valid_entry(hm: HostModel, i: int)
    requires
        hm is Mapping,
        0 <= i < hm->Mapping_0.len(),
    ensures
        host_valid(hm) ==> host_valid(hm->Mapping_0[i].0) && host_valid(hm->Mapping_0[i].1),
{
}

/// Whether every time in `h` has its microseconds below one second.
pub fn times_valid(h: &HostValue) -> (r: bool)
    ensures
        r == host_valid(h@),
    decreases h,
{
    proof {
        lemma_host_view(*h);
    }
    match h {
        HostValue::Mapping(m) => {
            let ghost hm = h@;
            let mut i: usize = 0;
            while i < m.len()
                invariant
                    *h == HostValue::Mapping(*m),
                    hm == h@,
                    hm is Mapping,
                    hm->Mapping_0.len() == m.len(),
                    forall|j: int|
                        0 <= j < m.len() ==> #[trigger] hm->Mapping_0[j] == (m[j].0@, m[j].1@),
                    0 <= i <= m.len(),
                    forall|j: int| 0 <= j < i ==> host_valid(#[trigger] hm->Mapping_0[j].0) && host_valid(hm->Mapping_0[j].1),
                decreases m.len() - i,
            {
                proof {
                    assert(decreases_to!(m => m[i as int]));
                }
                let (k, v) = &m[i];
                assert(hm->Mapping_0[i as int] == (k@, v@));
                if !times_valid(k) || !times_valid(v) {
                    assert(!host_valid(hm->Mapping_0[i as int].0) || !host_valid(
                        hm->Mapping_0[i as int].1,
                    ));
                    proof {
                        lemma_valid_entry(hm, i as int);
                    }
                    return false;
                }
                i = i + 1;
            }
            true
        },
        HostValue::Sequence(s) => {
            let ghost hm = h@;
            let mut i: usize = 0;
            while i < s.len()
                invariant
                    *h == HostValue::Sequence(*s),
                    hm == h@,
                    hm is Sequence,
                    hm->Sequence_0.len() == s.len(),
                    forall|j: int| 0 <= j < s.len() ==> #[trigger] hm->Sequence_0[j] == s[j]@,
                    0 <= i <= s.len(),
                    forall|j: int| 0 <= j < i ==> host_valid(#[trigger] hm->Sequence_0[j]),
                decreases s.len() - i,
            {
                proof {
                    assert(decreases_to!(s => s[i as int]));
                }
                assert(hm->Sequence_0[i as int] == s[i as int]@);
                if !times_valid(&s[i]) {
                    return false;
                }
                i = i + 1;
            }
            true
        },
        HostValue::DateTime(_, t, _) => t.microsecond < 1_000_000,
        HostValue::Time(t) => t.microsecond < 1_000_000,
        _ => true,
    }
}

} // verus!
