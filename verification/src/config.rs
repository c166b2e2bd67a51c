//! The configuration schema, and the construction of the immutable table
//! definition from it.
//!
//! A configuration arrives pre-validated from outside: an output format,
//! an index (name and dotted accessor path), and a list of fields, each
//! with a name, a dotted accessor path, a declared value type and an
//! operation. The core consumes it here, once, at startup.

use vstd::prelude::*;

use crate::aggregate::TableDef;
use crate::log_record::{split_dots, Accessor, LogValueType};
use crate::operation::OpType;
use crate::visualize::VisualizeType;

verus! {

/// One configured field: display name, dotted accessor path, declared
/// value type and operation, all as plain text.
pub struct Field {
    pub name: String,
    pub accessor: String,
    pub dtype: String,
    pub operation: String,
}

/// The configured index: display name and dotted accessor path.
pub struct Index {
    pub name: String,
    pub accessor: String,
}

/// A whole configuration, as handed over by the loader.
pub struct Config {
    pub output_format: Option<String>,
    pub order_by: Option<String>,
    pub order: Option<String>,
    pub index: Index,
    pub fields: Vec<Field>,
}

/// Whether two pieces of text hold the same characters.
pub fn str_eq(a: &str, b: &str) -> (r: bool)
    ensures
        r == (a@ == b@),
{
    let na = a.unicode_len();
    let nb = b.unicode_len();
    if na != nb {
        return false;
    }
    let mut i: usize = 0;
    while i < na
        invariant
            na == a@.len() == b@.len(),
            0 <= i <= na,
            forall|j: int| 0 <= j < i as int ==> a@[j] == b@[j],
        decreases na - i,
    {
        if a.get_char(i) != b.get_char(i) {
            return false;
        }
        i = i + 1;
    }
    proof {
        assert(a@ =~= b@);
    }
    true
}

/// The declared type a configuration names: `string`, `integer`, `float`
/// or `second`; anything else is the unknown type, whose values are always
/// missing.
pub open spec fn dtype_spec(s: Seq<char>) -> LogValueType {
    if s == "string"@ {
        LogValueType::String
    } else if s == "integer"@ {
        LogValueType::Integer
    } else if s == "float"@ {
        LogValueType::Float
    } else if s == "second"@ {
        LogValueType::Second
    } else {
        LogValueType::Unknown
    }
}

/// The operation a configuration names: `average` or `count`, with
/// `average` for anything else.
pub open spec fn op_spec(s: Seq<char>) -> OpType {
    if s == "count"@ {
        OpType::Count
    } else {
        OpType::Average
    }
}

/// The output format a configuration names: `csv`, with the aligned format
/// for anything else or nothing.
pub open spec fn format_spec(f: Option<String>) -> VisualizeType {
    match f {
        Some(s) => if s@ == "csv"@ {
            VisualizeType::Csv
        } else {
            VisualizeType::Markdown
        },
        None => VisualizeType::Markdown,
    }
}

impl Config {
    /// The output format this configuration picks.
    pub fn output_format(&self) -> (r: VisualizeType)
        ensures
            r == format_spec(self.output_format),
    {
        match &self.output_format {
            Some(f) => {
                if str_eq(f.as_str(), "csv") {
                    VisualizeType::Csv
                } else {
                    VisualizeType::Markdown
                }
            },
            None => VisualizeType::Markdown,
        }
    }
}

/// Parse one declared type name.
fn parse_dtype(s: &str) -> (r: LogValueType)
    ensures
        r == dtype_spec(s@),
{
    if str_eq(s, "string") {
        LogValueType::String
    } else if str_eq(s, "integer") {
        LogValueType::Integer
    } else if str_eq(s, "float") {
        LogValueType::Float
    } else if str_eq(s, "second") {
        LogValueType::Second
    } else {
        LogValueType::Unknown
    }
}

/// Parse one operation name.
fn parse_op(s: &str) -> (r: OpType)
    ensures
        r == op_spec(s@),
{
    if str_eq(s, "count") {
        OpType::Count
    } else {
        OpType::Average
    }
}

/// Build the immutable table definition a configuration describes: the
/// index (whose raw key text is read as a string), and every field with
/// its split accessor path, declared type and operation, in declared
/// order.
pub fn build_table_def(config: &Config) -> (r: TableDef)
    ensures
        r.index.accessor.name@ == config.index.name@,
        r.index.accessor.accessor.deep_view() == split_dots(config.index.accessor@),
        r.index.accessor.dtype == LogValueType::String,
        r.order_by is None,
        r.fields@.len() == config.fields@.len(),
        forall|i: int|
            0 <= i < config.fields@.len() ==> {
                let f = #[trigger] r.fields@[i];
                &&& f.accessor.name@ == config.fields@[i].name@
                &&& f.accessor.accessor.deep_view() == split_dots(config.fields@[i].accessor@)
                &&& f.accessor.dtype == dtype_spec(config.fields@[i].dtype@)
                &&& f.op_type == op_spec(config.fields@[i].operation@)
            },
{
    let index = crate::aggregate::Index::new(
        Accessor::from_string(
            config.index.name.as_str(),
            config.index.accessor.as_str(),
            LogValueType::String,
        ),
    );
    let mut fields: Vec<crate::aggregate::Field> = Vec::new();
    let n = config.fields.len();
    let mut i: usize = 0;
    while i < n
        invariant
            n == config.fields@.len(),
            0 <= i <= n,
            fields@.len() == i,
            forall|j: int|
                0 <= j < i as int ==> {
                    let f = #[trigger] fields@[j];
                    &&& f.accessor.name@ == config.fields@[j].name@
                    &&& f.accessor.accessor.deep_view() == split_dots(config.fields@[j].accessor@)
                    &&& f.accessor.dtype == dtype_spec(config.fields@[j].dtype@)
                    &&& f.op_type == op_spec(config.fields@[j].operation@)
                },
        decreases n - i,
    {
        let cf = &config.fields[i];
        let dtype = parse_dtype(cf.dtype.as_str());
        let accessor = Accessor::from_string(cf.name.as_str(), cf.accessor.as_str(), dtype);
        let op_type = parse_op(cf.operation.as_str());
        fields.push(crate::aggregate::Field::new(accessor, op_type));
        i = i + 1;
    }
    TableDef::new(index, fields)
}

} // verus!
