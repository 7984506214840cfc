use vstd::prelude::*;

verus! {

broadcast use vstd::std_specs::vec::axiom_vec_index_decreases;

/// A calendar date as a document holds it.
#[derive(Clone, Copy, Debug, PartialEq, Eq, Structural)]
pub struct Date {
    pub year: u16,
    pub month: u8,
    pub day: u8,
}

/// A time of day as a document holds it, down to the nanosecond.
#[derive(Clone, Copy, Debug, PartialEq, Eq, Structural)]
pub struct Time {
    pub hour: u8,
    pub minute: u8,
    pub second: u8,
    pub nanosecond: u32,
}

/// A datetime's displacement from UTC: exactly UTC, or a signed number of minutes.
#[derive(Clone, Copy, Debug, PartialEq, Eq, Structural)]
pub enum Offset {
    Z,
    Custom { minutes: i16 },
}

/// A document datetime: some of date, time and offset.
#[derive(Clone, Copy, Debug, PartialEq, Eq, Structural)]
pub struct Datetime {
    pub date: Option<Date>,
    pub time: Option<Time>,
    pub offset: Option<Offset>,
}

/// A time of day as the host holds it, down to the microsecond.
#[derive(Clone, Copy, Debug, PartialEq, Eq, Structural)]
pub struct HostTime {
    pub hour: u8,
    pub minute: u8,
    pub second: u8,
    pub microsecond: u32,
}

/// The timezone of an aware host datetime: the canonical UTC zone, or a fixed
/// displacement in normalised (days, seconds) form, as the zone's offset accessor
/// reports it.
#[derive(Clone, Copy, Debug, PartialEq, Eq, Structural)]
pub enum TzInfo {
    Utc,
    Fixed { days: i32, seconds: i32 },
}

/// A value of the host's dynamic object model. Floats are carried as their IEEE-754
/// binary64 bit pattern; `Other` is any value of an unsupported type, by type name.
#[derive(Debug)]
pub enum HostValue {
    Str(String),
    Bool(bool),
    Int(i64),
    Float(u64),
    Mapping(Vec<(HostValue, HostValue)>),
    Sequence(Vec<HostValue>),
    DateTime(Date, HostTime, Option<TzInfo>),
    Date(Date),
    Time(HostTime),
    Other(String),
}

/// A value-only document tree. Floats are carried as their binary64 bit pattern; a
/// table keeps its keys in order.
#[derive(Debug)]
pub enum TomlValue {
    String(String),
    Integer(i64),
    Float(u64),
    Boolean(bool),
    Datetime(Datetime),
    Array(Vec<TomlValue>),
    Table(Vec<(String, TomlValue)>),
}

/// A value of a format-aware document: a scalar, an array, or an inline table.
#[derive(Debug)]
pub enum DocValue {
    String(String),
    Integer(i64),
    Float(u64),
    Boolean(bool),
    Datetime(Datetime),
    Array(Vec<DocValue>),
    InlineTable(Vec<(String, DocValue)>),
}

/// A node of a format-aware document: a value, or a block table of further nodes.
#[derive(Debug)]
pub enum DocItem {
    Value(DocValue),
    Table(Vec<(String, DocItem)>),
}

/// The mathematical form of a [`HostValue`].
pub enum HostModel {
    Str(Seq<char>),
    Bool(bool),
    Int(i64),
    Float(u64),
    Mapping(Seq<(HostModel, HostModel)>),
    Sequence(Seq<HostModel>),
    DateTime(Date, HostTime, Option<TzInfo>),
    Date(Date),
    Time(HostTime),
    Other(Seq<char>),
}

/// The mathematical form of a [`TomlValue`].
pub enum TomlModel {
    String(Seq<char>),
    Integer(i64),
    Float(u64),
    Boolean(bool),
    Datetime(Datetime),
    Array(Seq<TomlModel>),
    Table(Seq<(Seq<char>, TomlModel)>),
}

/// The mathematical form of a [`DocValue`].
pub enum DocValueModel {
    String(Seq<char>),
    Integer(i64),
    Float(u64),
    Boolean(bool),
    Datetime(Datetime),
    Array(Seq<DocValueModel>),
    InlineTable(Seq<(Seq<char>, DocValueModel)>),
}

/// The mathematical form of a [`DocItem`].
pub enum DocItemModel {
    Value(DocValueModel),
    Table(Seq<(Seq<char>, DocItemModel)>),
}

impl View for HostValue {
    type V = HostModel;

    open spec fn view(&self) -> HostModel
        decreases self,
    {
        match self {
            HostValue::Str(s) => HostModel::Str(s@),
            HostValue::Bool(b) => HostModel::Bool(*b),
            HostValue::Int(i) => HostModel::Int(*i),
            HostValue::Float(f) => HostModel::Float(*f),
            HostValue::Mapping(m) => HostModel::Mapping(
                Seq::new(
                    m.len() as nat,
                    |i: int|
                        if 0 <= i < m.len() {
                            (m[i].0.view(), m[i].1.view())
                        } else {
                            (HostModel::Bool(false), HostModel::Bool(false))
                        },
                ),
            ),
            HostValue::Sequence(s) => HostModel::Sequence(
                Seq::new(
                    s.len() as nat,
                    |i: int|
                        if 0 <= i < s.len() {
                            s[i].view()
                        } else {
                            HostModel::Bool(false)
                        },
                ),
            ),
            HostValue::DateTime(d, t, z) => HostModel::DateTime(*d, *t, *z),
            HostValue::Date(d) => HostModel::Date(*d),
            HostValue::Time(t) => HostModel::Time(*t),
            HostValue::Other(n) => HostModel::Other(n@),
        }
    }
}

/// The host's name for the type of a value.
pub open spec fn kind_name_of(h: HostModel) -> Seq<char> {
    match h {
        HostModel::Str(_) => "str"@,
        HostModel::Bool(_) => "bool"@,
        HostModel::Int(_) => "int"@,
        HostModel::Float(_) => "float"@,
        HostModel::Mapping(_) => "dict"@,
        HostModel::Sequence(_) => "list"@,
        HostModel::DateTime(..) => "datetime"@,
        HostModel::Date(_) => "date"@,
        HostModel::Time(_) => "time"@,
        HostModel::Other(n) => n,
    }
}

impl HostValue {
    /// The host's name for the type of this value.
    pub fn kind_name(&self) -> (r: String)
        ensures
            r@ == kind_name_of(self@),
    {
        match self {
            HostValue::Str(_) => String::from_str("str"),
            HostValue::Bool(_) => String::from_str("bool"),
            HostValue::Int(_) => String::from_str("int"),
            HostValue::Float(_) => String::from_str("float"),
            HostValue::Mapping(_) => String::from_str("dict"),
            HostValue::Sequence(_) => String::from_str("list"),
            HostValue::DateTime(..) => String::from_str("datetime"),
            HostValue::Date(_) => String::from_str("date"),
            HostValue::Time(_) => String::from_str("time"),
            HostValue::Other(n) => n.clone(),
        }
    }
}

/// How the view of a mapping or a sequence relates to its entries.
pub proof fn lemma_host_view(h: HostValue)
    ensures
        h is Mapping ==> h@ is Mapping && h@->Mapping_0.len() == h->Mapping_0.len() && forall|i: int|
            0 <= i < h->Mapping_0.len() ==> #[trigger] h@->Mapping_0[i] == (
                h->Mapping_0[i].0@,
                h->Mapping_0[i].1@,
            ),
        h is Sequence ==> h@ is Sequence && h@->Sequence_0.len() == h->Sequence_0.len() && forall|i: int|
            0 <= i < h->Sequence_0.len() ==> #[trigger] h@->Sequence_0[i] == h->Sequence_0[i]@,
{
    reveal_with_fuel(<HostValue as View>::view, 2);
}

impl View for TomlValue {
    type V = TomlModel;

    open spec fn view(&self) -> TomlModel
        decreases self,
    {
        match self {
            TomlValue::String(s) => TomlModel::String(s@),
            TomlValue::Integer(i) => TomlModel::Integer(*i),
            TomlValue::Float(f) => TomlModel::Float(*f),
            TomlValue::Boolean(b) => TomlModel::Boolean(*b),
            TomlValue::Datetime(d) => TomlModel::Datetime(*d),
            TomlValue::Array(a) => TomlModel::Array(
                Seq::new(
                    a.len() as nat,
                    |i: int|
                        if 0 <= i < a.len() {
                            a[i].view()
                        } else {
                            TomlModel::Boolean(false)
                        },
                ),
            ),
            TomlValue::Table(t) => TomlModel::Table(
                Seq::new(
                    t.len() as nat,
                    |i: int|
                        if 0 <= i < t.len() {
                            (t[i].0@, t[i].1.view())
                        } else {
                            (Seq::empty(), TomlModel::Boolean(false))
                        },
                ),
            ),
        }
    }
}

/// How the view of an array or a table relates to its entries.
pub proof fn lemma_toml_view(t: TomlValue)
    ensures
        t is Table ==> t@ is Table && t@->Table_0.len() == t->Table_0.len() && forall|i: int|
            0 <= i < t->Table_0.len() ==> #[trigger] t@->Table_0[i] == (
                t->Table_0[i].0@,
                t->Table_0[i].1@,
            ),
        t is Array ==> t@ is Array && t@->Array_0.len() == t->Array_0.len() && forall|i: int|
            0 <= i < t->Array_0.len() ==> #[trigger] t@->Array_0[i] == t->Array_0[i]@,
{
    reveal_with_fuel(<TomlValue as View>::view, 2);
}

impl View for DocValue {
    type V = DocValueModel;

    open spec fn view(&self) -> DocValueModel
        decreases self,
    {
        match self {
            DocValue::String(s) => DocValueModel::String(s@),
            DocValue::Integer(i) => DocValueModel::Integer(*i),
            DocValue::Float(f) => DocValueModel::Float(*f),
            DocValue::Boolean(b) => DocValueModel::Boolean(*b),
            DocValue::Datetime(d) => DocValueModel::Datetime(*d),
            DocValue::Array(a) => DocValueModel::Array(
                Seq::new(
                    a.len() as nat,
                    |i: int|
                        if 0 <= i < a.len() {
                            a[i].view()
                        } else {
                            DocValueModel::Boolean(false)
                        },
                ),
            ),
            DocValue::InlineTable(t) => DocValueModel::InlineTable(
                Seq::new(
                    t.len() as nat,
                    |i: int|
                        if 0 <= i < t.len() {
                            (t[i].0@, t[i].1.view())
                        } else {
                            (Seq::empty(), DocValueModel::Boolean(false))
                        },
                ),
            ),
        }
    }
}

impl View for DocItem {
    type V = DocItemModel;

    open spec fn view(&self) -> DocItemModel
        decreases self,
    {
        match self {
            DocItem::Value(v) => DocItemModel::Value(v@),
            DocItem::Table(t) => DocItemModel::Table(
                Seq::new(
                    t.len() as nat,
                    |i: int|
                        if 0 <= i < t.len() {
                            (t[i].0@, t[i].1.view())
                        } else {
                            (Seq::empty(), DocItemModel::Value(DocValueModel::Boolean(false)))
                        },
                ),
            ),
        }
    }
}

/// How the view of an array or an inline table relates to its entries.
pub proof fn lemma_doc_value_view(v: DocValue)
    ensures
        v is InlineTable ==> v@ is InlineTable && v@->InlineTable_0.len() == v->InlineTable_0.len()
            && forall|i: int|
            0 <= i < v->InlineTable_0.len() ==> #[trigger] v@->InlineTable_0[i] == (
                v->InlineTable_0[i].0@,
                v->InlineTable_0[i].1@,
            ),
        v is Array ==> v@ is Array && v@->Array_0.len() == v->Array_0.len() && forall|i: int|
            0 <= i < v->Array_0.len() ==> #[trigger] v@->Array_0[i] == v->Array_0[i]@,
{
    reveal_with_fuel(<DocValue as View>::view, 2);
}

/// How the view of a block table relates to its entries.
pub proof fn lemma_doc_item_view(d: DocItem)
    ensures
        d is Table ==> d@ is Table && d@->Table_0.len() == d->Table_0.len() && forall|i: int|
            0 <= i < d->Table_0.len() ==> #[trigger] d@->Table_0[i] == (
                d->Table_0[i].0@,
                d->Table_0[i].1@,
            ),
        d is Value ==> d@ == DocItemModel::Value(d->Value_0@),
{
    reveal_with_fuel(<DocItem as View>::view, 2);
}

/// No key occurs twice among the entries of a table.
pub open spec fn keys_unique<V>(t: Seq<(Seq<char>, V)>) -> bool {
    forall|i: int, j: int| 0 <= i < j < t.len() ==> (#[trigger] t[i]).0 != (#[trigger] t[j]).0
}

/// Every table in `t` has unique keys.
pub open spec fn toml_wf(t: TomlModel) -> bool
    decreases t,
{
    match t {
        TomlModel::Array(a) => forall|i: int| 0 <= i < a.len() ==> toml_wf(#[trigger] a[i]),
        TomlModel::Table(m) => keys_unique(m) && forall|i: int|
            0 <= i < m.len() ==> toml_wf((#[trigger] m[i]).1),
        _ => true,
    }
}

/// Every mapping in `h` has unique keys.
pub open spec fn host_wf(h: HostModel) -> bool
    decreases h,
{
    match h {
        HostModel::Sequence(s) => forall|i: int| 0 <= i < s.len() ==> host_wf(#[trigger] s[i]),
        HostModel::Mapping(m) => (forall|i: int, j: int|
            0 <= i < j < m.len() ==> (#[trigger] m[i]).0 != (#[trigger] m[j]).0) && forall|i: int|
            0 <= i < m.len() ==> host_wf((#[trigger] m[i]).1),
        _ => true,
    }
}

} // verus!
