//! Accumulators for grouped aggregation.

use crate::value::{AsValue, Value, ValueView};
use vstd::prelude::*;

verus! {

/// The number of non-null values.
pub open spec fn count_non_null(vals: Seq<ValueView>) -> int
    decreases vals.len(),
{
    if vals.len() == 0 {
        0
    } else {
        count_non_null(vals.drop_last()) + if vals.last() is Null {
            0int
        } else {
            1int
        }
    }
}

/// The number of integer values.
pub open spec fn count_integers(vals: Seq<ValueView>) -> int
    decreases vals.len(),
{
    if vals.len() == 0 {
        0
    } else {
        count_integers(vals.drop_last()) + if vals.last() is Integer {
            1int
        } else {
            0int
        }
    }
}

/// The sum of the integer values.
pub open spec fn sum_integers(vals: Seq<ValueView>) -> int
    decreases vals.len(),
{
    if vals.len() == 0 {
        0
    } else {
        sum_integers(vals.drop_last()) + match vals.last() {
            ValueView::Integer(i) => i as int,
            _ => 0int,
        }
    }
}

/// `a / b` rounded toward zero, for `b > 0`.
pub open spec fn div_toward_zero(a: int, b: int) -> int {
    if a >= 0 {
        a / b
    } else {
        -((-a) / b)
    }
}

/// The mean of the integer values, rounded toward zero; 0 when there is
/// none.
pub open spec fn average_of(vals: Seq<ValueView>) -> int {
    if count_integers(vals) == 0 {
        0
    } else {
        div_toward_zero(sum_integers(vals), count_integers(vals))
    }
}

/// What an aggregate of kind `is_count` (else average) yields over `vals`.
pub open spec fn aggregate_of(is_count: bool, vals: Seq<ValueView>) -> int {
    if is_count {
        count_non_null(vals)
    } else {
        average_of(vals)
    }
}

/// The integer values sum to at most `2^31` times their number in size.
pub proof fn lemma_sum_bounds(vals: Seq<ValueView>)
    ensures
        0 <= count_integers(vals) <= vals.len(),
        0 <= count_non_null(vals) <= vals.len(),
        -0x8000_0000 * count_integers(vals) <= sum_integers(vals) <= 0x7fff_ffff * count_integers(vals),
    decreases vals.len(),
{
    if vals.len() > 0 {
        lemma_sum_bounds(vals.drop_last());
    }
}

/// Counts the non-null values fed to it.
#[derive(Debug, Clone, Copy)]
pub struct Count {
    result: i32,
}

impl Count {
    /// The count so far.
    pub closed spec fn total(&self) -> int {
        self.result as int
    }

    /// A count of nothing.
    pub fn new() -> (r: Count)
        ensures
            r.total() == 0,
    {
        Count { result: 0 }
    }

    /// Feeds one value.
    pub fn calculate<T: AsValue>(&mut self, value: T)
        requires
            old(self).total() < i32::MAX,
        ensures
            final(self).total() == old(self).total() + if value.value_view() is Null {
                0int
            } else {
                1int
            },
    {
        if let Value::Null(_) = value.as_datum_ref() {
            return;
        }
        self.result += 1;
    }

    pub fn get_result(&self) -> (r: i32)
        ensures
            r == self.total(),
    {
        self.result
    }
}

/// Averages the integer values fed to it.
#[derive(Debug, Clone, Copy)]
pub struct Average {
    count: i32,
    sum: i64,
}

impl Average {
    /// The number of integers so far.
    pub closed spec fn seen(&self) -> int {
        self.count as int
    }

    /// Their sum.
    pub closed spec fn total(&self) -> int {
        self.sum as int
    }

    /// An average of nothing.
    pub fn new() -> (r: Average)
        ensures
            r.seen() == 0,
            r.total() == 0,
    {
        Average { count: 0, sum: 0 }
    }

    /// Feeds one value; only integers count.
    pub fn calculate<T: AsValue>(&mut self, value: T)
        requires
            0 <= old(self).seen() < i32::MAX,
            -0x8000_0000 * old(self).seen() <= old(self).total() <= 0x7fff_ffff * old(self).seen(),
        ensures
            final(self).seen() == old(self).seen() + if value.value_view() is Integer {
                1int
            } else {
                0int
            },
            final(self).total() == old(self).total() + match value.value_view() {
                ValueView::Integer(i) => i as int,
                _ => 0int,
            },
    {
        if let Value::Integer(val) = value.as_datum_ref() {
            assert(-0x8000_0000 * 0x7fff_ffff <= self.sum <= 0x7fff_ffff * 0x7fff_ffff) by (nonlinear_arith)
                requires
                    0 <= self.count < 0x7fff_ffff,
                    -0x8000_0000 * self.count <= self.sum <= 0x7fff_ffff * self.count,
            ;
            self.sum += val as i64;
            self.count += 1;
        }
    }

    /// The mean, rounded toward zero; 0 when nothing was fed.
    pub fn get_result(&self) -> (r: i32)
        requires
            0 <= self.seen(),
            -0x8000_0000 * self.seen() <= self.total() <= 0x7fff_ffff * self.seen(),
        ensures
            self.seen() == 0 ==> r == 0,
            self.seen() > 0 ==> r == div_toward_zero(self.total(), self.seen()),
    {
        if self.count == 0 {
            return 0;
        }
        let count = self.count as i64;
        if self.sum >= 0 {
            let q = self.sum / count;
            assert(q <= 0x7fff_ffff) by (nonlinear_arith)
                requires
                    count > 0,
                    0 <= self.sum <= 0x7fff_ffff * count,
                    q == self.sum / count,
            ;
            q as i32
        } else {
            let neg = -self.sum;
            let q = neg / count;
            assert(q <= 0x8000_0000) by (nonlinear_arith)
                requires
                    count > 0,
                    0 < neg <= 0x8000_0000 * count,
                    q == neg / count,
            ;
            (-q) as i32
        }
    }
}

/// An accumulator: one of the supported aggregate kinds.
#[derive(Debug, Clone, Copy)]
pub enum AggFunc {
    /// COUNT
    Count(Count),
    /// AVG
    Average(Average),
}

impl AggFunc {
    /// Whether this accumulator is in the state reached by feeding `vals` to
    /// a fresh one.
    pub open spec fn holds(&self, vals: Seq<ValueView>) -> bool {
        match self {
            AggFunc::Count(c) => c.total() == count_non_null(vals),
            AggFunc::Average(a) => a.seen() == count_integers(vals) && a.total() == sum_integers(vals),
        }
    }

    /// Whether this is a count.
    pub open spec fn is_count(&self) -> bool {
        self is Count
    }

    /// Feeds one value.
    pub fn calculate<T: AsValue>(&mut self, value: T)
        requires
            exists|vals: Seq<ValueView>| old(self).holds(vals) && vals.len() < i32::MAX,
        ensures
            final(self).is_count() == old(self).is_count(),
            forall|vals: Seq<ValueView>|
                old(self).holds(vals) ==> final(self).holds(vals.push(value.value_view())),
    {
        let ghost vals = choose|vals: Seq<ValueView>| old(self).holds(vals) && vals.len() < i32::MAX;
        proof {
            lemma_sum_bounds(vals);
        }
        match self {
            AggFunc::Count(func) => func.calculate(value),
            AggFunc::Average(func) => func.calculate(value),
        }
        proof {
            assert forall|vs: Seq<ValueView>| old(self).holds(vs) implies self.holds(
                vs.push(value.value_view()),
            ) by {
                assert(vs.push(value.value_view()).drop_last() =~= vs);
            }
        }
    }

    /// The aggregate of what was fed.
    pub fn get_result(&self) -> (r: i32)
        requires
            exists|vals: Seq<ValueView>| self.holds(vals),
        ensures
            forall|vals: Seq<ValueView>| self.holds(vals) ==> r == aggregate_of(self.is_count(), vals),
    {
        let ghost vals = choose|vals: Seq<ValueView>| self.holds(vals);
        proof {
            lemma_sum_bounds(vals);
        }
        match self {
            AggFunc::Count(func) => func.get_result(),
            AggFunc::Average(func) => func.get_result(),
        }
    }
}

/// An aggregate to compute: the column it reads and a fresh accumulator.
#[derive(Debug, Clone)]
pub struct Agg {
    name: &'static str,
    func: AggFunc,
}

impl Agg {
    /// The name of the column it reads.
    pub closed spec fn spec_name(&self) -> Seq<char> {
        self.name@
    }

    /// The accumulator it starts from.
    pub closed spec fn spec_func(&self) -> AggFunc {
        self.func
    }

    /// Whether the accumulator has been fed nothing.
    pub open spec fn fresh(&self) -> bool {
        self.spec_func().holds(Seq::empty())
    }

    /// A count of the non-null values of column `name`.
    pub fn count(name: &'static str) -> (r: Agg)
        ensures
            r.spec_name() == name@,
            r.spec_func().is_count(),
            r.fresh(),
    {
        Agg { name: name, func: AggFunc::Count(Count::new()) }
    }

    /// The average of the integer values of column `name`.
    pub fn average(name: &'static str) -> (r: Agg)
        ensures
            r.spec_name() == name@,
            !r.spec_func().is_count(),
            r.fresh(),
    {
        Agg { name: name, func: AggFunc::Average(Average::new()) }
    }

    pub(crate) fn name(&self) -> (r: &'static str)
        ensures
            r@ == self.spec_name(),
    {
        self.name
    }

    pub(crate) fn func(&self) -> (r: AggFunc)
        ensures
            r == self.spec_func(),
    {
        self.func
    }
}

} // verus!
