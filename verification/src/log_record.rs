//! Typed values extracted from log records, and the coercion of raw text
//! into them.
//!
//! A raw string pulled out of a JSON document is coerced according to a
//! declared type into a [`LogValue`]. Coercion never fails: malformed input
//! becomes the missing marker, so one bad field never aborts a record.

use vstd::prelude::*;

use crate::fixed::{
    dec_str, find_dot, fixed_str, fixed_to_string, lemma_find_dot_at, parse_fixed,
    parse_fixed_spec, parse_u32, parse_u32_spec, u64_to_string, Fixed,
};
use crate::json::{get_value, json_of, parse_json, resolve_spec, JsonModel, JsonValue};

verus! {

/// The type a field's raw text is declared to coerce into.
#[derive(Clone, Copy, Debug, PartialEq, Eq, Structural)]
pub enum LogValueType {
    String,
    Integer,
    Float,
    Second,
    Unknown,
}

/// A typed value observed for one field on one record. `Missing` means
/// "no usable datum": it is a value of its own, not an absence.
#[derive(Debug)]
pub enum LogValue {
    String(String),
    Integer(u32),
    Float(Fixed),
    Second(Fixed),
    Missing,
}

/// Mathematical model of a [`LogValue`]: strings as character sequences,
/// numeric values as their count of ten-thousandths.
pub enum ValueModel {
    Str(Seq<char>),
    Int(int),
    Flt(int),
    Sec(int),
    Missing,
}

impl View for LogValue {
    type V = ValueModel;

    open spec fn view(&self) -> ValueModel {
        match self {
            LogValue::String(s) => ValueModel::Str(s@),
            LogValue::Integer(n) => ValueModel::Int(*n as int),
            LogValue::Float(x) => ValueModel::Flt(x.units as int),
            LogValue::Second(x) => ValueModel::Sec(x.units as int),
            LogValue::Missing => ValueModel::Missing,
        }
    }
}

impl PartialEq for LogValue {
    /// Values are equal only within one variant: strings by their text,
    /// numbers by their exact units (the fixed-point grid is coarser than
    /// any tolerance below one ten-thousandth), missing equal to missing.
    fn eq(&self, other: &Self) -> (r: bool) {
        match (self, other) {
            (LogValue::String(a), LogValue::String(b)) => a.eq(b),
            (LogValue::Integer(a), LogValue::Integer(b)) => a == b,
            (LogValue::Float(a), LogValue::Float(b)) => a.units == b.units,
            (LogValue::Second(a), LogValue::Second(b)) => a.units == b.units,
            (LogValue::Missing, LogValue::Missing) => true,
            _ => false,
        }
    }
}

impl vstd::std_specs::cmp::PartialEqSpecImpl for LogValue {
    open spec fn obeys_eq_spec() -> bool {
        true
    }

    open spec fn eq_spec(&self, other: &Self) -> bool {
        match (self, other) {
            (LogValue::String(a), LogValue::String(b)) => a@ == b@,
            (LogValue::Integer(a), LogValue::Integer(b)) => a == b,
            (LogValue::Float(a), LogValue::Float(b)) => a.units == b.units,
            (LogValue::Second(a), LogValue::Second(b)) => a.units == b.units,
            (LogValue::Missing, LogValue::Missing) => true,
            _ => false,
        }
    }
}

/// What coercing a raw string to a duration yields: a decimal literal
/// followed by the unit suffix `sec` or `s`, the longer suffix tried first;
/// the value is in seconds, as fixed-point units.
pub open spec fn duration_spec(s: Seq<char>) -> Option<int> {
    if s.len() >= 3 && s[s.len() - 3] == 's' && s[s.len() - 2] == 'e' && s[s.len() - 1] == 'c' {
        parse_fixed_spec(s.take(s.len() - 3))
    } else if s.len() >= 1 && s[s.len() - 1] == 's' {
        parse_fixed_spec(s.take(s.len() - 1))
    } else {
        None
    }
}

/// What coercing a raw string to each declared type yields. Malformed input
/// is the missing marker, never an error.
pub open spec fn coerce_spec(typ: LogValueType, s: Seq<char>) -> ValueModel {
    match typ {
        LogValueType::String => ValueModel::Str(s),
        LogValueType::Integer => match parse_u32_spec(s) {
            Some(n) => ValueModel::Int(n as int),
            None => ValueModel::Missing,
        },
        LogValueType::Float => match parse_fixed_spec(s) {
            Some(u) => ValueModel::Flt(u),
            None => ValueModel::Missing,
        },
        LogValueType::Second => match duration_spec(s) {
            Some(u) => ValueModel::Sec(u),
            None => ValueModel::Missing,
        },
        LogValueType::Unknown => ValueModel::Missing,
    }
}

/// Coerce a raw string into a typed value according to the declared type.
pub fn parse_value(typ: &LogValueType, s: &str) -> (v: LogValue)
    ensures
        v@ == coerce_spec(*typ, s@),
{
    match typ {
        LogValueType::String => LogValue::String(s.to_owned()),
        LogValueType::Integer => match parse_u32(s) {
            Some(n) => LogValue::Integer(n),
            None => LogValue::Missing,
        },
        LogValueType::Float => match parse_fixed(s) {
            Some(f) => LogValue::Float(f),
            None => LogValue::Missing,
        },
        LogValueType::Second => {
            let n = s.unicode_len();
            if n >= 3 && s.get_char(n - 3) == 's' && s.get_char(n - 2) == 'e' && s.get_char(
                n - 1,
            ) == 'c' {
                let body = s.substring_char(0, n - 3);
                proof {
                    assert(body@ =~= s@.take(n - 3));
                }
                match parse_fixed(body) {
                    Some(f) => LogValue::Second(f),
                    None => LogValue::Missing,
                }
            } else if n >= 1 && s.get_char(n - 1) == 's' {
                let body = s.substring_char(0, n - 1);
                proof {
                    assert(body@ =~= s@.take(n - 1));
                }
                match parse_fixed(body) {
                    Some(f) => LogValue::Second(f),
                    None => LogValue::Missing,
                }
            } else {
                LogValue::Missing
            }
        },
        LogValueType::Unknown => LogValue::Missing,
    }
}

/// The models of a sequence of typed values, element by element.
pub open spec fn values_view(vs: Seq<LogValue>) -> Seq<ValueModel> {
    Seq::new(vs.len(), |i: int| vs[i]@)
}

/// Numeric values the accumulators can take in without leaving the
/// fixed-point range: their units fit an `i64`'s magnitude. Every value
/// coercion produces holds this.
pub open spec fn value_wf(v: ValueModel) -> bool {
    match v {
        ValueModel::Flt(u) => -0x7fff_ffff_ffff_ffff <= u <= 0x7fff_ffff_ffff_ffff,
        ValueModel::Sec(u) => -0x7fff_ffff_ffff_ffff <= u <= 0x7fff_ffff_ffff_ffff,
        _ => true,
    }
}

/// Coercion only produces values within the fixed-point range.
pub proof fn lemma_coerce_wf(typ: LogValueType, s: Seq<char>)
    ensures
        value_wf(coerce_spec(typ, s)),
{
    match typ {
        LogValueType::Float => crate::fixed::lemma_parse_fixed_range(s),
        LogValueType::Second => {
            if s.len() >= 3 && s[s.len() - 3] == 's' && s[s.len() - 2] == 'e' && s[s.len() - 1]
                == 'c' {
                crate::fixed::lemma_parse_fixed_range(s.take(s.len() - 3));
            } else if s.len() >= 1 && s[s.len() - 1] == 's' {
                crate::fixed::lemma_parse_fixed_range(s.take(s.len() - 1));
            }
        },
        _ => {},
    }
}

/// A field's extracted value is always within the fixed-point range.
pub proof fn lemma_field_value_wf(doc: JsonModel, path: Seq<Seq<char>>, dtype: LogValueType)
    ensures
        value_wf(field_value_spec(doc, path, dtype)),
{
    match resolve_spec(doc, path) {
        Some(raw) => lemma_coerce_wf(dtype, raw),
        None => {},
    }
}

/// The canonical display text of a typed value: strings verbatim, integers
/// in decimal, floats and durations with four fractional digits (durations
/// suffixed `sec`), the missing marker as `-`.
pub open spec fn display_str(v: ValueModel) -> Seq<char> {
    match v {
        ValueModel::Str(s) => s,
        ValueModel::Int(n) => dec_str(n),
        ValueModel::Flt(u) => fixed_str(u),
        ValueModel::Sec(u) => fixed_str(u) + seq!['s', 'e', 'c'],
        ValueModel::Missing => seq!['-'],
    }
}

impl LogValue {
    /// Render this value as its canonical display text.
    pub fn as_string(&self) -> (r: String)
        ensures
            r@ == display_str(self@),
    {
        match self {
            LogValue::String(x) => x.clone(),
            LogValue::Integer(x) => u64_to_string(*x as u64),
            LogValue::Float(x) => fixed_to_string(x),
            LogValue::Second(x) => {
                let mut t = fixed_to_string(x);
                t.append("sec");
                proof {
                    reveal_strlit("sec");
                    assert(t@ =~= fixed_str(x.units as int) + seq!['s', 'e', 'c']);
                }
                t
            },
            LogValue::Missing => {
                let r = "-".to_owned();
                proof {
                    reveal_strlit("-");
                    assert(r@ =~= seq!['-']);
                }
                r
            },
        }
    }
}

/// A named, ordered path of nested-object field names locating a scalar
/// inside a JSON document, with the type its raw text coerces into.
pub struct Accessor {
    pub name: String,
    pub accessor: Vec<String>,
    pub dtype: LogValueType,
}

/// A dotted path split at every `'.'`: the segments in order, empty
/// segments kept.
pub open spec fn split_dots(s: Seq<char>) -> Seq<Seq<char>>
    decreases s.len(),
{
    let p = find_dot(s);
    if 0 <= p < s.len() {
        seq![s.take(p)] + split_dots(s.skip(p + 1))
    } else {
        seq![s]
    }
}

impl Accessor {
    /// Build an accessor from a dotted path such as `httpRequest.latency`.
    pub fn from_string(name: &str, accessor: &str, dtype: LogValueType) -> (r: Self)
        ensures
            r.name@ == name@,
            r.accessor.deep_view() == split_dots(accessor@),
            r.dtype == dtype,
    {
        let n = accessor.unicode_len();
        let mut parts: Vec<String> = Vec::new();
        let mut seg_start: usize = 0;
        let mut i: usize = 0;
        proof {
            assert(accessor@.skip(0) =~= accessor@);
        }
        while i < n
            invariant
                n == accessor@.len(),
                0 <= seg_start as int <= i as int <= n,
                forall|m: int| seg_start as int <= m < i as int ==> #[trigger] accessor@[m] != '.',
                split_dots(accessor@) == parts.deep_view() + split_dots(
                    accessor@.skip(seg_start as int),
                ),
            decreases n - i,
        {
            let c = accessor.get_char(i);
            if c == '.' {
                let seg = accessor.substring_char(seg_start, i).to_owned();
                proof {
                    let t = accessor@.skip(seg_start as int);
                    assert forall|m: int| 0 <= m < i as int - seg_start as int implies #[trigger]
                        t[m] != '.' by {
                        assert(t[m] == accessor@[seg_start + m]);
                    }
                    assert(t[i as int - seg_start as int] == accessor@[i as int]);
                    lemma_find_dot_at(t, i as int - seg_start as int);
                    assert(t.take(i as int - seg_start as int) =~= seg@);
                    assert(t.skip(i as int - seg_start as int + 1) =~= accessor@.skip(i + 1));
                    let ghost parts2 = parts.deep_view().push(seg@);
                    assert(parts2 + split_dots(accessor@.skip(i + 1)) =~~= parts.deep_view()
                        + split_dots(t));
                }
                parts.push(seg);
                proof {
                    assert(parts.deep_view() =~~= parts.deep_view().drop_last().push(
                        parts.deep_view().last(),
                    ));
                }
                seg_start = i + 1;
            }
            i = i + 1;
        }
        let seg = accessor.substring_char(seg_start, n).to_owned();
        proof {
            let t = accessor@.skip(seg_start as int);
            assert forall|m: int| 0 <= m < t.len() implies #[trigger] t[m] != '.' by {
                assert(t[m] == accessor@[seg_start + m]);
            }
            lemma_find_dot_at(t, t.len() as int);
            assert(t =~= seg@);
            assert(split_dots(t) == seq![t]);
        }
        let mut parts_done = parts;
        parts_done.push(seg);
        proof {
            assert(parts_done.deep_view() =~~= split_dots(accessor@));
        }
        Accessor { name: name.to_owned(), accessor: parts_done, dtype }
    }
}

/// The typed value a document yields for one accessor: its raw text at the
/// path, coerced to the declared type; missing where the path does not
/// resolve.
pub open spec fn field_value_spec(doc: JsonModel, path: Seq<Seq<char>>, dtype: LogValueType)
    -> ValueModel {
    match resolve_spec(doc, path) {
        Some(raw) => coerce_spec(dtype, raw),
        None => ValueModel::Missing,
    }
}

/// One record extracted from one input line: the grouping key, if its
/// accessor resolved, and the coerced value of every declared field, in
/// declared order.
pub struct LogRecord {
    pub key: Option<String>,
    pub values: Vec<LogValue>,
}

impl LogRecord {
    /// An empty record for the given key.
    pub fn new(key: &str) -> (r: Self)
        ensures
            r.key matches Some(k) && k@ == key@,
            r.values@.len() == 0,
    {
        Self { key: Some(key.to_owned()), values: Vec::new() }
    }

    /// Coerce one raw field text and append it to the record's values.
    pub fn set(&mut self, raw: &str, typ: &LogValueType)
        ensures
            final(self).key == old(self).key,
            final(self).values@.len() == old(self).values@.len() + 1,
            forall|i: int|
                0 <= i < old(self).values@.len() ==> #[trigger] final(self).values@[i] == old(
                    self,
                ).values@[i],
            final(self).values@.last()@ == coerce_spec(*typ, raw@),
    {
        let v = parse_value(typ, raw);
        self.values.push(v);
    }

    /// The value recorded for the field at position `i`.
    pub fn get(&self, i: usize) -> (r: &LogValue)
        requires
            i < self.values@.len(),
        ensures
            *r == self.values@[i as int],
    {
        &self.values[i]
    }

    /// Extract a record from one line of input: parse the line as JSON,
    /// resolve the key accessor (a failure leaves the key unset), and
    /// resolve and coerce every field accessor in declared order (a failure
    /// yields the missing marker for that field). Returns nothing exactly
    /// where the line is not valid JSON.
    pub fn parse(line: &str, index: &Accessor, fields: &Vec<&Accessor>) -> (r: Option<LogRecord>)
        ensures
            match r {
                Some(rec) => match json_of(line@) {
                    Some(doc) => {
                        &&& (match resolve_spec(doc, index.accessor.deep_view()) {
                            Some(k) => rec.key matches Some(ks) && ks@ == k,
                            None => rec.key is None,
                        })
                        &&& rec.values@.len() == fields@.len()
                        &&& forall|i: int|
                            0 <= i < fields@.len() ==> #[trigger] rec.values@[i]@
                                == field_value_spec(
                                doc,
                                fields@[i].accessor.deep_view(),
                                fields@[i].dtype,
                            )
                    },
                    None => false,
                },
                None => json_of(line@) is None,
            },
    {
        let doc = match parse_json(line) {
            Some(d) => d,
            None => {
                return None;
            },
        };
        proof {
            assert(index.accessor.deep_view().skip(0) =~= index.accessor.deep_view());
        }
        let key: Option<String> = match get_value(&doc, &index.accessor, 0) {
            Some(s) => Some(s.clone()),
            None => None,
        };
        let mut values: Vec<LogValue> = Vec::new();
        let n = fields.len();
        let mut j: usize = 0;
        while j < n
            invariant
                n == fields@.len(),
                0 <= j <= n,
                values@.len() == j,
                forall|i: int|
                    0 <= i < j as int ==> #[trigger] values@[i]@ == field_value_spec(
                        doc@,
                        fields@[i].accessor.deep_view(),
                        fields@[i].dtype,
                    ),
            decreases n - j,
        {
            let f = fields[j];
            proof {
                assert(f.accessor.deep_view().skip(0) =~= f.accessor.deep_view());
            }
            let v = match get_value(&doc, &f.accessor, 0) {
                Some(raw) => parse_value(&f.dtype, raw.as_str()),
                None => LogValue::Missing,
            };
            values.push(v);
            j = j + 1;
        }
        Some(LogRecord { key, values })
    }
}

} // verus!
