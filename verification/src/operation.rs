//! Per-field accumulators: the stateful operations folded over a row's
//! stream of typed values.
//!
//! An operation is updated once per processed record and can be asked for
//! its current value at any time. A missing value never changes any
//! operation's state, so one absent field on one record cannot corrupt a
//! statistic. The set of kinds is a tagged union: adding a kind means adding
//! a variant and its transition, nothing in the engine changes.

use vstd::prelude::*;

use crate::fixed::{round_div, round_div_units, Fixed, FIXED_SCALE};
use crate::log_record::{value_wf, LogValue, ValueModel};

verus! {

/// The kind of accumulator a field is configured with.
#[derive(Clone, Copy, Debug, PartialEq, Eq, Structural)]
pub enum OpType {
    Count,
    Average,
}

/// Counts records whose value for the field was present, whatever it was.
pub struct OpCount {
    pub count: u32,
}

/// Accumulates the exact sum (in fixed-point units) and sample count of the
/// numeric values seen, so the mean is computed once, at reading time.
pub struct OpAverage {
    pub sum: i128,
    pub count: u32,
}

/// One per-(row, field) accumulator instance.
pub enum Op {
    Count(OpCount),
    Average(OpAverage),
}

/// Mathematical model of an accumulator: the counter, or the pair of exact
/// sum and sample count.
pub enum OpModel {
    Count(int),
    Average(int, int),
}

impl View for OpCount {
    type V = OpModel;

    open spec fn view(&self) -> OpModel {
        OpModel::Count(self.count as int)
    }
}

impl View for OpAverage {
    type V = OpModel;

    open spec fn view(&self) -> OpModel {
        OpModel::Average(self.sum as int, self.count as int)
    }
}

impl View for Op {
    type V = OpModel;

    open spec fn view(&self) -> OpModel {
        match self {
            Op::Count(c) => c@,
            Op::Average(a) => a@,
        }
    }
}

/// Whether a typed value feeds an average: integers, floats and durations
/// do; strings and the missing marker do not.
pub open spec fn is_numeric(v: ValueModel) -> bool {
    match v {
        ValueModel::Int(_) => true,
        ValueModel::Flt(_) => true,
        ValueModel::Sec(_) => true,
        _ => false,
    }
}

/// A numeric value as fixed-point units: integers are scaled, floats and
/// durations already carry units.
pub open spec fn numeric_units(v: ValueModel) -> int {
    match v {
        ValueModel::Int(n) => n * (FIXED_SCALE as int),
        ValueModel::Flt(u) => u,
        ValueModel::Sec(u) => u,
        _ => 0,
    }
}

/// A well-formed accumulator state: counters within range, and a sum that
/// is in fact a sum of at most `n` values of at most `i64::MAX` magnitude.
pub open spec fn op_wf(o: OpModel) -> bool {
    match o {
        OpModel::Count(c) => 0 <= c <= u32::MAX,
        OpModel::Average(s, n) => 0 <= n <= u32::MAX && -(0x7fff_ffff_ffff_ffff * n) <= s
            <= 0x7fff_ffff_ffff_ffff * n,
    }
}

/// The fresh state of each accumulator kind.
pub open spec fn op_new_spec(t: OpType) -> OpModel {
    match t {
        OpType::Count => OpModel::Count(0),
        OpType::Average => OpModel::Average(0, 0),
    }
}

/// One update step. A missing value is a no-op on every kind; a counter at
/// its ceiling and an average at its sample ceiling stay put.
pub open spec fn op_update_spec(o: OpModel, v: ValueModel) -> OpModel {
    match o {
        OpModel::Count(c) => if v is Missing {
            OpModel::Count(c)
        } else {
            OpModel::Count(if c < u32::MAX { c + 1 } else { c })
        },
        OpModel::Average(s, n) => if is_numeric(v) && n < u32::MAX {
            OpModel::Average(s + numeric_units(v), n + 1)
        } else {
            OpModel::Average(s, n)
        },
    }
}

/// The value an accumulator reports: the counter as an integer; the mean of
/// the samples as a float, or missing when there are no samples (never a
/// division by zero).
pub open spec fn op_value_spec(o: OpModel) -> ValueModel {
    match o {
        OpModel::Count(c) => ValueModel::Int(c),
        OpModel::Average(s, n) => if n == 0 {
            ValueModel::Missing
        } else {
            ValueModel::Flt(round_div(s, n))
        },
    }
}

/// The state of an accumulator after a whole stream of values.
pub open spec fn op_fold(t: OpType, vs: Seq<ValueModel>) -> OpModel
    decreases vs.len(),
{
    if vs.len() == 0 {
        op_new_spec(t)
    } else {
        op_update_spec(op_fold(t, vs.drop_last()), vs.last())
    }
}

/// How many values of a stream are present (not the missing marker).
pub open spec fn non_missing_count(vs: Seq<ValueModel>) -> int
    decreases vs.len(),
{
    if vs.len() == 0 {
        0
    } else {
        non_missing_count(vs.drop_last()) + (if vs.last() is Missing {
            0int
        } else {
            1int
        })
    }
}

/// How many values of a stream are numeric.
pub open spec fn numeric_count(vs: Seq<ValueModel>) -> int
    decreases vs.len(),
{
    if vs.len() == 0 {
        0
    } else {
        numeric_count(vs.drop_last()) + (if is_numeric(vs.last()) {
            1int
        } else {
            0int
        })
    }
}

/// The exact sum, in fixed-point units, of a stream's numeric values.
pub open spec fn numeric_sum(vs: Seq<ValueModel>) -> int
    decreases vs.len(),
{
    if vs.len() == 0 {
        0
    } else {
        numeric_sum(vs.drop_last()) + (if is_numeric(vs.last()) {
            numeric_units(vs.last())
        } else {
            0int
        })
    }
}

/// Present and numeric values are never negatively many.
pub proof fn lemma_stream_counts_nonneg(vs: Seq<ValueModel>)
    ensures
        0 <= non_missing_count(vs) <= vs.len(),
        0 <= numeric_count(vs) <= vs.len(),
    decreases vs.len(),
{
    if vs.len() > 0 {
        lemma_stream_counts_nonneg(vs.drop_last());
    }
}

/// A count accumulator folded over any stream holds exactly the number of
/// present values, and reports it as an integer — provided the stream has
/// no more present values than the counter can hold.
pub proof fn lemma_count_law(vs: Seq<ValueModel>)
    requires
        non_missing_count(vs) <= u32::MAX,
    ensures
        op_fold(OpType::Count, vs) == OpModel::Count(non_missing_count(vs)),
        op_value_spec(op_fold(OpType::Count, vs)) == ValueModel::Int(non_missing_count(vs)),
    decreases vs.len(),
{
    lemma_stream_counts_nonneg(vs);
    if vs.len() > 0 {
        lemma_stream_counts_nonneg(vs.drop_last());
        lemma_count_law(vs.drop_last());
    }
}

/// An average accumulator folded over any stream holds exactly the sum and
/// count of the stream's numeric values, and reports their mean — rounded
/// to the nearest fixed-point unit — or missing when there are none.
pub proof fn lemma_average_law(vs: Seq<ValueModel>)
    requires
        numeric_count(vs) <= u32::MAX,
    ensures
        op_fold(OpType::Average, vs) == OpModel::Average(numeric_sum(vs), numeric_count(vs)),
        op_value_spec(op_fold(OpType::Average, vs)) == (if numeric_count(vs) == 0 {
            ValueModel::Missing
        } else {
            ValueModel::Flt(round_div(numeric_sum(vs), numeric_count(vs)))
        }),
    decreases vs.len(),
{
    lemma_stream_counts_nonneg(vs);
    if vs.len() > 0 {
        lemma_stream_counts_nonneg(vs.drop_last());
        lemma_average_law(vs.drop_last());
    }
}

impl OpCount {
    /// A fresh counter.
    pub fn new() -> (r: Self)
        ensures
            r@ == op_new_spec(OpType::Count),
    {
        Self { count: 0 }
    }
}

impl OpAverage {
    /// A fresh average accumulator.
    pub fn new() -> (r: Self)
        ensures
            r@ == op_new_spec(OpType::Average),
    {
        Self { sum: 0, count: 0 }
    }
}

/// Construct the accumulator a kind calls for.
pub fn build_operation(op_type: &OpType) -> (r: Op)
    ensures
        r@ == op_new_spec(*op_type),
        op_wf(r@),
{
    match op_type {
        OpType::Count => Op::Count(OpCount::new()),
        OpType::Average => Op::Average(OpAverage::new()),
    }
}

impl Op {
    /// Fold one typed value into this accumulator. A missing value changes
    /// nothing.
    pub fn update(&mut self, v: &LogValue)
        requires
            op_wf(old(self)@),
            value_wf(v@),
        ensures
            final(self)@ == op_update_spec(old(self)@, v@),
            op_wf(final(self)@),
    {
        match self {
            Op::Count(c) => {
                match v {
                    LogValue::Missing => {},
                    _ => {
                        if c.count < u32::MAX {
                            c.count = c.count + 1;
                        }
                    },
                }
            },
            Op::Average(a) => {
                let units: i64 = match v {
                    LogValue::Integer(x) => (*x as i64) * (FIXED_SCALE as i64),
                    LogValue::Float(f) => f.units,
                    LogValue::Second(f) => f.units,
                    _ => {
                        return ;
                    },
                };
                if a.count < u32::MAX {
                    proof {
                        let m: int = 0x7fff_ffff_ffff_ffff;
                        let n = a.count as int;
                        assert(m * (n + 1) == m * n + m) by (nonlinear_arith);
                    }
                    a.sum = a.sum + (units as i128);
                    a.count = a.count + 1;
                }
            },
        }
    }

    /// The value this accumulator currently reports; non-destructive.
    pub fn value(&self) -> (r: LogValue)
        requires
            op_wf(self@),
        ensures
            r@ == op_value_spec(self@),
    {
        match self {
            Op::Count(c) => LogValue::Integer(c.count),
            Op::Average(a) => {
                if a.count == 0 {
                    LogValue::Missing
                } else {
                    let units = round_div_units(a.sum, a.count);
                    LogValue::Float(Fixed { units: units as i64 })
                }
            },
        }
    }
}

} // verus!
