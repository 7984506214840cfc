use vstd::prelude::*;
use crate::encode::{
    copy_string, has_bad_key, has_unsupported, host_datetime, host_fits, host_valid, key_chars,
    EncodeError,
};
use crate::guard::{RecursionGuard, RECURSION_LIMIT};
use crate::keypath::{joined_keys, new_stack, pop_key, push_key, stack_keys, KeyStack};
use crate::text::{split_dots, split_path, strings_view};
use crate::model::{
    kind_name_of, lemma_doc_item_view, lemma_doc_value_view, lemma_host_view, DocItem, DocItemModel, DocValue,
    DocValueModel, HostModel, HostValue,
};

verus! {

broadcast use vstd::std_specs::vec::axiom_vec_index_decreases;

/// Keys joined with `'.'` into a dotted path.
pub open spec fn join_dots(p: Seq<Seq<char>>) -> Seq<char>
    decreases p.len(),
{
    if p.len() == 0 {
        Seq::empty()
    } else if p.len() == 1 {
        p[0]
    } else {
        join_dots(p.drop_last()) + seq!['.'] + p.last()
    }
}

/// Whether the mapping at `path` is marked to render inline.
pub open spec fn marked_inline(path: Seq<Seq<char>>, inline: Seq<Seq<char>>) -> bool {
    inline.contains(join_dots(path))
}

/// A block table turned into a value: nested block tables become inline tables.
pub open spec fn item_as_value(d: DocItemModel) -> DocValueModel
    decreases d,
{
    match d {
        DocItemModel::Value(v) => v,
        DocItemModel::Table(t) => DocValueModel::InlineTable(
            Seq::new(
                t.len(),
                |i: int|
                    if 0 <= i < t.len() {
                        (t[i].0, item_as_value(t[i].1))
                    } else {
                        (Seq::empty(), DocValueModel::Boolean(false))
                    },
            ),
        ),
    }
}

/// The document value of a host scalar, date, time or datetime.
pub open spec fn scalar_value(h: HostModel) -> DocValueModel {
    match h {
        HostModel::Str(s) => DocValueModel::String(s),
        HostModel::Bool(b) => DocValueModel::Boolean(b),
        HostModel::Int(i) => DocValueModel::Integer(i),
        HostModel::Float(f) => DocValueModel::Float(f),
        _ => DocValueModel::Datetime(host_datetime(h)),
    }
}

/// Whether `h`, reached by `path`, has a format-aware document form: every key is a
/// string, no value is of an unsupported type, and no mapping marked inline holds a
/// value whose form is a block table.
pub open spec fn doc_encodable(h: HostModel, path: Seq<Seq<char>>, inline: Seq<Seq<char>>) -> bool
    decreases h,
{
    match h {
        HostModel::Mapping(m) => forall|i: int|
            0 <= i < m.len() ==> {
                &&& (#[trigger] m[i]).0 is Str
                &&& doc_encodable(m[i].1, path.push(key_chars(m[i].0)), inline)
                &&& (m.len() > 0 && marked_inline(path, inline)) ==> doc_model(
                    m[i].1,
                    path.push(key_chars(m[i].0)),
                    inline,
                ) is Value
            },
        HostModel::Sequence(s) => forall|i: int|
            0 <= i < s.len() ==> doc_encodable(#[trigger] s[i], path, inline),
        HostModel::Other(_) => false,
        _ => true,
    }
}

/// The format-aware document form of `h`, reached by `path`: a non-empty mapping whose
/// path is marked renders as an inline table and any other mapping as a block table; a
/// sequence renders as an array, in which block tables become inline tables.
pub open spec fn doc_model(h: HostModel, path: Seq<Seq<char>>, inline: Seq<Seq<char>>) -> DocItemModel
    decreases h,
{
    match h {
        HostModel::Mapping(m) => if m.len() > 0 && marked_inline(path, inline) {
            DocItemModel::Value(
                DocValueModel::InlineTable(
                    Seq::new(
                        m.len(),
                        |i: int|
                            if 0 <= i < m.len() {
                                (
                                    key_chars(m[i].0),
                                    doc_model(m[i].1, path.push(key_chars(m[i].0)), inline)->Value_0,
                                )
                            } else {
                                (Seq::empty(), DocValueModel::Boolean(false))
                            },
                    ),
                ),
            )
        } else {
            DocItemModel::Table(
                Seq::new(
                    m.len(),
                    |i: int|
                        if 0 <= i < m.len() {
                            (key_chars(m[i].0), doc_model(m[i].1, path.push(key_chars(m[i].0)), inline))
                        } else {
                            (Seq::empty(), DocItemModel::Value(DocValueModel::Boolean(false)))
                        },
                ),
            )
        },
        HostModel::Sequence(s) => DocItemModel::Value(
            DocValueModel::Array(
                Seq::new(
                    s.len(),
                    |i: int|
                        if 0 <= i < s.len() {
                            item_as_value(doc_model(s[i], path, inline))
                        } else {
                            DocValueModel::Boolean(false)
                        },
                ),
            ),
        ),
        _ => DocItemModel::Value(scalar_value(h)),
    }
}

/// Somewhere in `h`, reached by `path`, a mapping marked inline holds a value whose form
/// is a block table.
pub open spec fn inline_violation(h: HostModel, path: Seq<Seq<char>>, inline: Seq<Seq<char>>) -> bool
    decreases h,
{
    match h {
        HostModel::Mapping(m) => exists|i: int|
            0 <= i < m.len() && ((marked_inline(path, inline) && doc_model(
                (#[trigger] m[i]).1,
                path.push(key_chars(m[i].0)),
                inline,
            ) is Table) || inline_violation(m[i].1, path.push(key_chars(m[i].0)), inline)),
        HostModel::Sequence(s) => exists|i: int|
            0 <= i < s.len() && inline_violation(#[trigger] s[i], path, inline),
        _ => false,
    }
}

/// Copies a document node as a value, turning block tables into inline tables.
pub fn item_to_value(d: &DocItem) -> (r: DocValue)
    ensures
        r@ == item_as_value(d@),
    decreases d,
{
    proof {
        lemma_doc_item_view(*d);
    }
    match d {
        DocItem::Value(v) => copy_value(v),
        DocItem::Table(t) => {
            let mut out: Vec<(String, DocValue)> = Vec::new();
            let mut i: usize = 0;
            while i < t.len()
                invariant
                    *d == DocItem::Table(*t),
                    d@ is Table,
                    d@->Table_0.len() == t.len(),
                    forall|j: int|
                        0 <= j < t.len() ==> #[trigger] d@->Table_0[j] == (t[j].0@, t[j].1@),
                    0 <= i <= t.len(),
                    out@.len() == i,
                    forall|j: int|
                        0 <= j < i ==> (#[trigger] out@[j]).0@ == t[j].0@ && out@[j].1@
                            == item_as_value(t[j].1@),
                decreases t.len() - i,
            {
                proof {
                    assert(decreases_to!(t => t[i as int]));
                }
                let v = item_to_value(&t[i].1);
                out.push((copy_string(&t[i].0), v));
                i = i + 1;
            }
            let r = DocValue::InlineTable(out);
            proof {
                lemma_doc_value_view(r);
                assert(r@->InlineTable_0 =~= item_as_value(d@)->InlineTable_0);
            }
            r
        },
    }
}

/// Copies a document value.
pub fn copy_value(v: &DocValue) -> (r: DocValue)
    ensures
        r@ == v@,
    decreases v,
{
    proof {
        lemma_doc_value_view(*v);
    }
    match v {
        DocValue::String(s) => DocValue::String(copy_string(s)),
        DocValue::Integer(i) => DocValue::Integer(*i),
        DocValue::Float(f) => DocValue::Float(*f),
        DocValue::Boolean(b) => DocValue::Boolean(*b),
        DocValue::Datetime(d) => DocValue::Datetime(*d),
        DocValue::Array(a) => {
            let mut out: Vec<DocValue> = Vec::new();
            let mut i: usize = 0;
            while i < a.len()
                invariant
                    *v == DocValue::Array(*a),
                    v@ is Array,
                    v@->Array_0.len() == a.len(),
                    forall|j: int| 0 <= j < a.len() ==> #[trigger] v@->Array_0[j] == a[j]@,
                    0 <= i <= a.len(),
                    out@.len() == i,
                    forall|j: int| 0 <= j < i ==> (#[trigger] out@[j])@ == a[j]@,
                decreases a.len() - i,
            {
                proof {
                    assert(decreases_to!(a => a[i as int]));
                }
                out.push(copy_value(&a[i]));
                i = i + 1;
            }
            let r = DocValue::Array(out);
            proof {
                lemma_doc_value_view(r);
                assert(r@->Array_0 =~= v@->Array_0);
            }
            r
        },
        DocValue::InlineTable(t) => {
            let mut out: Vec<(String, DocValue)> = Vec::new();
            let mut i: usize = 0;
            while i < t.len()
                invariant
                    *v == DocValue::InlineTable(*t),
                    v@ is InlineTable,
                    v@->InlineTable_0.len() == t.len(),
                    forall|j: int|
                        0 <= j < t.len() ==> #[trigger] v@->InlineTable_0[j] == (t[j].0@, t[j].1@),
                    0 <= i <= t.len(),
                    out@.len() == i,
                    forall|j: int|
                        0 <= j < i ==> (#[trigger] out@[j]).0@ == t[j].0@ && out@[j].1@ == t[j].1@,
                decreases t.len() - i,
            {
                proof {
                    assert(decreases_to!(t => t[i as int]));
                }
                let c = copy_value(&t[i].1);
                out.push((copy_string(&t[i].0), c));
                i = i + 1;
            }
            let r = DocValue::InlineTable(out);
            proof {
                lemma_doc_value_view(r);
                assert(r@->InlineTable_0 =~= v@->InlineTable_0);
            }
            r
        },
    }
}

/// Joins the keys of `path` with `'.'`.
pub fn join_path(path: &Vec<String>) -> (r: String)
    ensures
        r@ == join_dots(strings_view(path@)),
{
    let ghost p = strings_view(path@);
    if path.len() == 0 {
        return String::new();
    }
    let mut r = copy_string(&path[0]);
    assert(p.subrange(0, 1) =~= seq![p[0]]);
    let mut i: usize = 1;
    while i < path.len()
        invariant
            p == strings_view(path@),
            1 <= i <= path.len(),
            r@ == join_dots(p.subrange(0, i as int)),
        decreases path.len() - i,
    {
        proof {
            reveal_strlit(".");
            let q = p.subrange(0, i + 1);
            assert(q.drop_last() =~= p.subrange(0, i as int));
        }
        r.append(".");
        r.append(path[i].as_str());
        i = i + 1;
    }
    assert(p.subrange(0, path.len() as int) =~= p);
    r
}

/// Whether `set` holds a string equal to `p`.
pub fn contains_path(set: &Vec<String>, p: &String) -> (r: bool)
    ensures
        r == strings_view(set@).contains(p@),
{
    let ghost sv = strings_view(set@);
    let mut i: usize = 0;
    while i < set.len()
        invariant
            sv == strings_view(set@),
            0 <= i <= set.len(),
            forall|j: int| 0 <= j < i ==> sv[j] != p@,
        decreases set.len() - i,
    {
        if set[i].eq(p) {
            assert(sv[i as int] == p@);
            return true;
        }
        i = i + 1;
    }
    false
}

/// The marked paths, as character sequences (none when no set is given).
pub open spec fn inline_view(inline: Option<&Vec<String>>) -> Seq<Seq<char>> {
    match inline {
        Some(set) => strings_view(set@),
        None => Seq::empty(),
    }
}

/// The document value of a host scalar, date, time or datetime.
fn encode_scalar(h: &HostValue) -> (r: DocValue)
    requires
        !(h is Mapping || h is Sequence || h is Other),
        host_valid(h@),
    ensures
        r@ == scalar_value(h@),
{
    match h {
        HostValue::Str(s) => DocValue::String(copy_string(s)),
        HostValue::Bool(b) => DocValue::Boolean(*b),
        HostValue::Int(i) => DocValue::Integer(*i),
        HostValue::Float(f) => DocValue::Float(*f),
        _ => DocValue::Datetime(crate::encode::encode_datetime(h)),
    }
}

/// Converts a host value, reached by the keys on `path`, into a format-aware document
/// node, counting nesting on `guard`: a non-empty mapping whose dotted path is in `inline`
/// becomes an inline table, any other mapping a block table.
pub fn encode_item(
    h: &HostValue,
    guard: &mut RecursionGuard,
    inline: Option<&Vec<String>>,
    path: &mut KeyStack,
) -> (r: Result<DocItem, EncodeError>)
    requires
        old(guard).wf(),
        host_valid(h@),
    ensures
        final(guard).limit == old(guard).limit,
        final(guard).wf(),
        r is Ok <==> doc_encodable(h@, stack_keys(*old(path)), inline_view(inline)) && host_fits(
            h@,
            old(guard).room(),
        ),
        r is Ok ==> r->Ok_0@ == doc_model(h@, stack_keys(*old(path)), inline_view(inline)),
        r is Ok ==> final(guard).current == old(guard).current && stack_keys(*final(path))
            == stack_keys(*old(path)),
        r matches Err(EncodeError::RecursionExceeded) ==> !host_fits(h@, old(guard).room()),
        r is Err && !(r matches Err(EncodeError::RecursionExceeded)) ==> !doc_encodable(
            h@,
            stack_keys(*old(path)),
            inline_view(inline),
        ),
        r is Err ==> (r matches Err(EncodeError::RecursionExceeded) || r matches Err(
            EncodeError::NonStringKey(_),
        ) || r matches Err(EncodeError::Unsupported(_)) || r matches Err(
            EncodeError::InlineTableContent,
        )),
        r matches Err(EncodeError::NonStringKey(n)) ==> has_bad_key(h@, n@),
        r matches Err(EncodeError::Unsupported(n)) ==> has_unsupported(h@, n@),
        r matches Err(EncodeError::InlineTableContent) ==> inline_violation(
            h@,
            stack_keys(*old(path)),
            inline_view(inline),
        ),
    decreases h,
{
    let ghost p0 = stack_keys(*path);
    let ghost iv = inline_view(inline);
    proof {
        lemma_host_view(*h);
    }
    match h {
        HostValue::Mapping(m) => {
            let ghost hm = h@;
            if m.len() == 0 {
                let r = DocItem::Table(Vec::new());
                proof {
                    lemma_doc_item_view(r);
                    assert(r@->Table_0 =~= doc_model(hm, p0, iv)->Table_0);
                }
                return Ok(r);
            }
            if guard.enter().is_err() {
                return Err(EncodeError::RecursionExceeded);
            }
            let here = joined_keys(path);
            let inline_here = match inline {
                Some(set) => contains_path(set, &here),
                None => false,
            };
            let mut block: Vec<(String, DocItem)> = Vec::new();
            let mut flat: Vec<(String, DocValue)> = Vec::new();
            let mut i: usize = 0;
            while i < m.len()
                invariant
                    *h == HostValue::Mapping(*m),
                    hm == h@,
                    host_valid(hm),
                    hm is Mapping,
                    hm->Mapping_0.len() == m.len(),
                    forall|j: int|
                        0 <= j < m.len() ==> #[trigger] hm->Mapping_0[j] == (m[j].0@, m[j].1@),
                    inline_view(inline) == iv,
                    inline_here == marked_inline(p0, iv),
                    stack_keys(*path) == p0,
                    stack_keys(*old(path)) == p0,
                    0 <= i <= m.len(),
                    guard.limit == old(guard).limit,
                    guard.current == old(guard).current + 1,
                    guard.wf(),
                    inline_here ==> flat@.len() == i,
                    !inline_here ==> block@.len() == i,
                    forall|j: int| 0 <= j < i ==> (#[trigger] m[j]).0@ is Str,
                    forall|j: int|
                        0 <= j < i ==> doc_encodable(
                            #[trigger] m[j].1@,
                            p0.push(key_chars(m[j].0@)),
                            iv,
                        ),
                    forall|j: int|
                        0 <= j < i ==> host_fits(#[trigger] m[j].1@, old(guard).room() - 1),
                    inline_here ==> forall|j: int|
                        0 <= j < i ==> (#[trigger] flat@[j]).0@ == key_chars(m[j].0@) && doc_model(
                            m[j].1@,
                            p0.push(key_chars(m[j].0@)),
                            iv,
                        ) == DocItemModel::Value(flat@[j].1@),
                    !inline_here ==> forall|j: int|
                        0 <= j < i ==> (#[trigger] block@[j]).0@ == key_chars(m[j].0@) && block@[j].1@
                            == doc_model(m[j].1@, p0.push(key_chars(m[j].0@)), iv),
                decreases m.len() - i,
            {
                let (k, v) = &m[i];
                proof {
                    assert(decreases_to!(m => m[i as int]));
                    assert(host_valid(hm->Mapping_0[i as int].0));
                }
                let key = match k {
                    HostValue::Str(s) => copy_string(s),
                    _ => {
                        let name = k.kind_name();
                        proof {
                            assert(!(hm->Mapping_0[i as int].0 is Str) && kind_name_of(
                                hm->Mapping_0[i as int].0,
                            ) == name@);
                        }
                        return Err(EncodeError::NonStringKey(name));
                    },
                };
                push_key(path, copy_string(&key));
                let ghost child_path = p0.push(key@);
                let item = match encode_item(v, guard, inline, path) {
                    Ok(item) => item,
                    Err(e) => {
                        proof {
                            let c = hm->Mapping_0[i as int];
                            assert(c.1 == v@);
                            assert(key_chars(c.0) == key@);
                            assert(child_path == p0.push(key_chars(c.0)));
                            assert(doc_encodable(hm, p0, iv) ==> doc_encodable(c.1, child_path, iv));
                            assert(host_fits(hm, old(guard).room()) ==> host_fits(
                                hm->Mapping_0[i as int].1,
                                old(guard).room() - 1,
                            ));
                        }
                        return Err(e);
                    },
                };
                pop_key(path);
                assert(stack_keys(*path) =~= p0);
                proof {
                    lemma_doc_item_view(item);
                }
                if inline_here {
                    match item {
                        DocItem::Value(val) => {
                            flat.push((key, val));
                        },
                        DocItem::Table(_) => {
                            proof {
                                assert(key_chars(hm->Mapping_0[i as int].0) == key@);
                                assert(hm->Mapping_0[i as int].1 == v@);
                                assert(!(doc_model(
                                    hm->Mapping_0[i as int].1,
                                    p0.push(key_chars(hm->Mapping_0[i as int].0)),
                                    iv,
                                ) is Value));
                            }
                            return Err(EncodeError::InlineTableContent);
                        },
                    }
                } else {
                    block.push((key, item));
                }
                i = i + 1;
            }
            guard.exit();
            proof {
                if inline_here {
                    assert forall|j: int| 0 <= j < m.len() implies doc_model(
                        #[trigger] hm->Mapping_0[j].1,
                        p0.push(key_chars(hm->Mapping_0[j].0)),
                        iv,
                    ) is Value by {
                        assert(flat@[j].0@ == key_chars(m[j].0@));
                    }
                }
                assert(doc_encodable(hm, p0, iv));
                assert(host_fits(hm, old(guard).room()));
            }
            if inline_here {
                let r = DocItem::Value(DocValue::InlineTable(flat));
                proof {
                    lemma_doc_item_view(r);
                    lemma_doc_value_view(r->Value_0);
                    assert(r@->Value_0->InlineTable_0 =~= doc_model(hm, p0, iv)->Value_0->InlineTable_0);
                }
                Ok(r)
            } else {
                let r = DocItem::Table(block);
                proof {
                    lemma_doc_item_view(r);
                    assert(r@->Table_0 =~= doc_model(hm, p0, iv)->Table_0);
                }
                Ok(r)
            }
        },
        HostValue::Sequence(s) => {
            let ghost hm = h@;
            if s.len() == 0 {
                let r = DocItem::Value(DocValue::Array(Vec::new()));
                proof {
                    lemma_doc_item_view(r);
                    lemma_doc_value_view(r->Value_0);
                    assert(r@->Value_0->Array_0 =~= doc_model(hm, p0, iv)->Value_0->Array_0);
                }
                return Ok(r);
            }
            if guard.enter().is_err() {
                return Err(EncodeError::RecursionExceeded);
            }
            let mut out: Vec<DocValue> = Vec::new();
            let mut i: usize = 0;
            while i < s.len()
                invariant
                    *h == HostValue::Sequence(*s),
                    hm == h@,
                    host_valid(hm),
                    hm is Sequence,
                    hm->Sequence_0.len() == s.len(),
                    forall|j: int| 0 <= j < s.len() ==> #[trigger] hm->Sequence_0[j] == s[j]@,
                    inline_view(inline) == iv,
                    stack_keys(*path) == p0,
                    stack_keys(*old(path)) == p0,
                    0 <= i <= s.len(),
                    guard.limit == old(guard).limit,
                    guard.current == old(guard).current + 1,
                    guard.wf(),
                    out@.len() == i,
                    forall|j: int| 0 <= j < i ==> doc_encodable(#[trigger] s[j]@, p0, iv),
                    forall|j: int| 0 <= j < i ==> host_fits(#[trigger] s[j]@, old(guard).room() - 1),
                    forall|j: int|
                        0 <= j < i ==> (#[trigger] out@[j])@ == item_as_value(doc_model(s[j]@, p0, iv)),
                decreases s.len() - i,
            {
                let v = &s[i];
                proof {
                    assert(decreases_to!(s => s[i as int]));
                    assert(hm->Sequence_0[i as int] == v@);
                }
                let item = match encode_item(v, guard, inline, path) {
                    Ok(item) => item,
                    Err(e) => {
                        proof {
                            assert(hm->Sequence_0[i as int] == v@);
                            assert(host_fits(hm, old(guard).room()) ==> host_fits(
                                hm->Sequence_0[i as int],
                                old(guard).room() - 1,
                            ));
                        }
                        return Err(e);
                    },
                };
                proof {
                    lemma_doc_item_view(item);
                }
                let val = match item {
                    DocItem::Value(val) => val,
                    DocItem::Table(_) => item_to_value(&item),
                };
                out.push(val);
                i = i + 1;
            }
            guard.exit();
            let r = DocItem::Value(DocValue::Array(out));
            proof {
                lemma_doc_item_view(r);
                lemma_doc_value_view(r->Value_0);
                assert(r@->Value_0->Array_0 =~= doc_model(hm, p0, iv)->Value_0->Array_0);
            }
            Ok(r)
        },
        HostValue::Other(_) => Err(EncodeError::Unsupported(h.kind_name())),
        _ => {
            let r = DocItem::Value(encode_scalar(h));
            proof {
                lemma_doc_item_view(r);
            }
            Ok(r)
        },
    }
}

/// `i` is the first position of `key` among the keys of `t`.
pub open spec fn first_key<V>(t: Seq<(Seq<char>, V)>, key: Seq<char>, i: int) -> bool {
    &&& 0 <= i < t.len()
    &&& t[i].0 == key
    &&& forall|j: int| 0 <= j < i ==> t[j].0 != key
}

/// The node under `key` in a block or inline table, if there is one.
pub open spec fn child_of(n: DocItemModel, key: Seq<char>) -> Option<DocItemModel> {
    match n {
        DocItemModel::Table(t) => if exists|i: int| first_key(t, key, i) {
            Some(t[choose|i: int| first_key(t, key, i)].1)
        } else {
            None
        },
        DocItemModel::Value(DocValueModel::InlineTable(t)) => if exists|i: int| first_key(t, key, i) {
            Some(DocItemModel::Value(t[choose|i: int| first_key(t, key, i)].1))
        } else {
            None
        },
        _ => None,
    }
}

/// The node reached from `n` through the keys `segs`, if every step exists.
pub open spec fn walk(n: DocItemModel, segs: Seq<Seq<char>>) -> Option<DocItemModel>
    decreases segs.len(),
{
    if segs.len() == 0 {
        Some(n)
    } else {
        match child_of(n, segs[0]) {
            Some(c) => walk(c, segs.drop_first()),
            None => None,
        }
    }
}

/// A block table or an inline table.
pub open spec fn is_table_like(n: DocItemModel) -> bool {
    n is Table || (n is Value && n->Value_0 is InlineTable)
}

/// The dotted path `p` leads from `doc` to a table.
pub open spec fn path_ok(doc: DocItemModel, p: Seq<char>) -> bool {
    match walk(doc, split_dots(p)) {
        Some(n) => is_table_like(n),
        None => false,
    }
}

/// A borrowed document node: a block-table entry or an inline-table entry.
pub enum NodeRef<'a> {
    Item(&'a DocItem),
    Value(&'a DocValue),
}

/// The node a [`NodeRef`] points at.
pub open spec fn node_view(n: NodeRef) -> DocItemModel {
    match n {
        NodeRef::Item(d) => d@,
        NodeRef::Value(v) => DocItemModel::Value(v@),
    }
}

/// The entry under `key` in `n`, if there is one.
fn get_child<'a>(n: NodeRef<'a>, key: &String) -> (r: Option<NodeRef<'a>>)
    ensures
        match child_of(node_view(n), key@) {
            Some(c) => r is Some && node_view(r->Some_0) == c,
            None => r is None,
        },
{
    match n {
        NodeRef::Item(DocItem::Table(t)) => {
            proof {
                lemma_doc_item_view(*n->Item_0);
            }
            let ghost tm = node_view(n)->Table_0;
            let mut i: usize = 0;
            while i < t.len()
                invariant
                    node_view(n) is Table,
                    node_view(n)->Table_0 == tm,
                    tm.len() == t.len(),
                    forall|j: int| 0 <= j < t.len() ==> #[trigger] tm[j] == (t[j].0@, t[j].1@),
                    0 <= i <= t.len(),
                    forall|j: int| 0 <= j < i ==> tm[j].0 != key@,
                decreases t.len() - i,
            {
                if t[i].0.eq(key) {
                    proof {
                        assert(first_key(tm, key@, i as int));
                        let c = choose|c: int| first_key(tm, key@, c);
                        assert(c == i);
                    }
                    return Some(NodeRef::Item(&t[i].1));
                }
                i = i + 1;
            }
            None
        },
        NodeRef::Item(DocItem::Value(DocValue::InlineTable(t))) | NodeRef::Value(
            DocValue::InlineTable(t),
        ) => {
            proof {
                match n {
                    NodeRef::Item(d) => {
                        lemma_doc_item_view(*d);
                        lemma_doc_value_view(d->Value_0);
                    },
                    NodeRef::Value(v) => {
                        lemma_doc_value_view(*v);
                    },
                }
            }
            let ghost tm = node_view(n)->Value_0->InlineTable_0;
            let mut i: usize = 0;
            while i < t.len()
                invariant
                    node_view(n) is Value,
                    node_view(n)->Value_0 is InlineTable,
                    node_view(n)->Value_0->InlineTable_0 == tm,
                    tm.len() == t.len(),
                    forall|j: int| 0 <= j < t.len() ==> #[trigger] tm[j] == (t[j].0@, t[j].1@),
                    0 <= i <= t.len(),
                    forall|j: int| 0 <= j < i ==> tm[j].0 != key@,
                decreases t.len() - i,
            {
                if t[i].0.eq(key) {
                    proof {
                        assert(first_key(tm, key@, i as int));
                        let c = choose|c: int| first_key(tm, key@, c);
                        assert(c == i);
                    }
                    return Some(NodeRef::Value(&t[i].1));
                }
                i = i + 1;
            }
            None
        },
        _ => {
            proof {
                match n {
                    NodeRef::Item(d) => {
                        lemma_doc_item_view(*d);
                    },
                    NodeRef::Value(v) => {},
                }
            }
            None
        },
    }
}

/// Whether `n` points at a block table or an inline table.
fn is_table_ref(n: NodeRef) -> (r: bool)
    ensures
        r == is_table_like(node_view(n)),
{
    match n {
        NodeRef::Item(d) => {
            proof {
                lemma_doc_item_view(*d);
            }
            match d {
                DocItem::Table(_) => true,
                DocItem::Value(DocValue::InlineTable(_)) => {
                    proof {
                        lemma_doc_value_view(d->Value_0);
                    }
                    true
                },
                DocItem::Value(v) => {
                    proof {
                        lemma_doc_value_view(*v);
                    }
                    false
                },
            }
        },
        NodeRef::Value(v) => {
            proof {
                lemma_doc_value_view(*v);
            }
            match v {
                DocValue::InlineTable(_) => true,
                _ => false,
            }
        },
    }
}

/// Finds the node that a dotted path names in `doc`.
fn resolve<'a>(doc: &'a DocItem, path: &String) -> (r: Option<NodeRef<'a>>)
    ensures
        match walk(doc@, split_dots(path@)) {
            Some(n) => r is Some && node_view(r->Some_0) == n,
            None => r is None,
        },
{
    let segs = split_path(path.as_str());
    let ghost sv = strings_view(segs@);
    let mut cur = NodeRef::Item(doc);
    let mut k: usize = 0;
    assert(sv.subrange(0, sv.len() as int) =~= sv);
    while k < segs.len()
        invariant
            sv == strings_view(segs@),
            sv == split_dots(path@),
            0 <= k <= segs.len(),
            walk(doc@, sv) == walk(node_view(cur), sv.subrange(k as int, sv.len() as int)),
        decreases segs.len() - k,
    {
        let ghost rest = sv.subrange(k as int, sv.len() as int);
        assert(rest.drop_first() =~= sv.subrange(k + 1, sv.len() as int));
        assert(rest[0] == segs@[k as int]@);
        match get_child(cur, &segs[k]) {
            Some(c) => {
                cur = c;
            },
            None => {
                return None;
            },
        }
        k = k + 1;
    }
    assert(sv.subrange(k as int, sv.len() as int) =~= Seq::<Seq<char>>::empty());
    Some(cur)
}

/// Checks that every path marked inline names a table of `doc`: the first that names
/// nothing fails with `PathNotFound`, the first that names a non-table with
/// `PathNotTable`.
pub fn validate_inline_paths(doc: &DocItem, inline: &Vec<String>) -> (r: Result<(), EncodeError>)
    ensures
        r is Ok <==> forall|i: int| 0 <= i < inline@.len() ==> path_ok(doc@, #[trigger] inline@[i]@),
        r matches Err(EncodeError::PathNotFound(p)) ==> exists|i: int|
            0 <= i < inline@.len() && #[trigger] inline@[i]@ == p@ && walk(doc@, split_dots(p@)) is None,
        r matches Err(EncodeError::PathNotTable(p)) ==> exists|i: int|
            0 <= i < inline@.len() && #[trigger] inline@[i]@ == p@ && walk(doc@, split_dots(p@)) is Some
                && !is_table_like(walk(doc@, split_dots(p@))->Some_0),
        r is Err ==> (r matches Err(EncodeError::PathNotFound(_)) || r matches Err(
            EncodeError::PathNotTable(_),
        )),
{
    let mut i: usize = 0;
    while i < inline.len()
        invariant
            0 <= i <= inline.len(),
            forall|j: int| 0 <= j < i ==> path_ok(doc@, #[trigger] inline@[j]@),
        decreases inline.len() - i,
    {
        let path = &inline[i];
        match resolve(doc, path) {
            None => {
                return Err(EncodeError::PathNotFound(copy_string(path)));
            },
            Some(n) => {
                if !is_table_ref(n) {
                    return Err(EncodeError::PathNotTable(copy_string(path)));
                }
            },
        }
        i = i + 1;
    }
    Ok(())
}

/// The root table of a document built from `d`: `d` itself when it is a block table, an
/// empty table otherwise.
pub open spec fn root_of(d: DocItemModel) -> DocItemModel {
    if d is Table {
        d
    } else {
        DocItemModel::Table(Seq::empty())
    }
}

/// Converts a host value into a format-aware document node, with a fresh recursion
/// guard and an empty key path.
pub fn python_to_toml(h: &HostValue, inline: Option<&Vec<String>>) -> (r: Result<DocItem, EncodeError>)
    requires
        host_valid(h@),
    ensures
        r is Ok <==> doc_encodable(h@, Seq::empty(), inline_view(inline)) && host_fits(
            h@,
            RECURSION_LIMIT as int,
        ),
        r is Ok ==> r->Ok_0@ == doc_model(h@, Seq::empty(), inline_view(inline)),
        r matches Err(EncodeError::RecursionExceeded) ==> !host_fits(h@, RECURSION_LIMIT as int),
        r is Err && !(r matches Err(EncodeError::RecursionExceeded)) ==> !doc_encodable(
            h@,
            Seq::empty(),
            inline_view(inline),
        ),
        r is Err ==> (r matches Err(EncodeError::RecursionExceeded) || r matches Err(
            EncodeError::NonStringKey(_),
        ) || r matches Err(EncodeError::Unsupported(_)) || r matches Err(
            EncodeError::InlineTableContent,
        )),
        r matches Err(EncodeError::NonStringKey(n)) ==> has_bad_key(h@, n@),
        r matches Err(EncodeError::Unsupported(n)) ==> has_unsupported(h@, n@),
        r matches Err(EncodeError::InlineTableContent) ==> inline_violation(
            h@,
            Seq::empty(),
            inline_view(inline),
        ),
{
    let mut guard = RecursionGuard::default();
    let capacity: usize = match inline {
        Some(set) => set.len(),
        None => 0,
    };
    let mut path = new_stack(capacity);
    encode_item(h, &mut guard, inline, &mut path)
}

/// Builds the document that format-aware encoding renders: the root table of the
/// converted value, after every path marked inline has been checked against it.
pub fn build_document(h: &HostValue, inline: Option<&Vec<String>>) -> (r: Result<DocItem, EncodeError>)
    requires
        host_valid(h@),
    ensures
        ({
            let iv = inline_view(inline);
            let encoded = doc_encodable(h@, Seq::empty(), iv) && host_fits(h@, RECURSION_LIMIT as int);
            let root = root_of(doc_model(h@, Seq::empty(), iv));
            &&& r is Ok <==> encoded && forall|i: int| 0 <= i < iv.len() ==> path_ok(root, #[trigger] iv[i])
            &&& r is Ok ==> r->Ok_0@ == root
            &&& r matches Err(EncodeError::RecursionExceeded) ==> !host_fits(h@, RECURSION_LIMIT as int)
            &&& r matches Err(EncodeError::PathNotFound(p)) ==> encoded && iv.contains(p@) && walk(
                root,
                split_dots(p@),
            ) is None
            &&& r matches Err(EncodeError::PathNotTable(p)) ==> encoded && iv.contains(p@) && walk(
                root,
                split_dots(p@),
            ) is Some && !is_table_like(walk(root, split_dots(p@))->Some_0)
            &&& (r matches Err(EncodeError::NonStringKey(_)) || r matches Err(EncodeError::Unsupported(_))
                || r matches Err(EncodeError::InlineTableContent)) ==> !doc_encodable(h@, Seq::empty(), iv)
            &&& r matches Err(EncodeError::NonStringKey(n)) ==> has_bad_key(h@, n@)
            &&& r matches Err(EncodeError::Unsupported(n)) ==> has_unsupported(h@, n@)
            &&& r matches Err(EncodeError::InlineTableContent) ==> inline_violation(
                h@,
                Seq::empty(),
                iv,
            )
        }),
{
    let item = match python_to_toml(h, inline) {
        Ok(item) => item,
        Err(e) => {
            return Err(e);
        },
    };
    proof {
        lemma_doc_item_view(item);
    }
    let root = match item {
        DocItem::Table(t) => DocItem::Table(t),
        DocItem::Value(_) => {
            let r = DocItem::Table(Vec::new());
            proof {
                lemma_doc_item_view(r);
                assert(r@->Table_0 =~= Seq::<(Seq<char>, DocItemModel)>::empty());
            }
            r
        },
    };
    match inline {
        Some(set) => {
            match validate_inline_paths(&root, set) {
                Ok(()) => {},
                Err(e) => {
                    proof {
                        if e is PathNotFound {
                            let p = e->PathNotFound_0;
                            let i = choose|i: int| 0 <= i < set@.len() && #[trigger] set@[i]@ == p@ && walk(root@, split_dots(p@)) is None;
                            assert(strings_view(set@)[i] == p@);
                        }
                        if e is PathNotTable {
                            let p = e->PathNotTable_0;
                            let i = choose|i: int| 0 <= i < set@.len() && #[trigger] set@[i]@ == p@ && walk(root@, split_dots(p@)) is Some && !is_table_like(walk(root@, split_dots(p@))->Some_0);
                            assert(strings_view(set@)[i] == p@);
                        }
                    }
                    return Err(e);
                },
            }
        },
        None => {},
    }
    Ok(root)
}

} // verus!
