//! The ranges that the `iota!` macro expands to, and why a call is refused.

use vstd::prelude::*;

verus! {

/// A bound of the range in an `iota!` call, as the parser found it: an
/// integer literal (its value, or `None` when it does not fit an `i128`),
/// a negated expression, or anything else.
pub enum IntExpr {
    Lit(Option<i128>),
    Neg(Box<IntExpr>),
    Other,
}

/// Why an `iota!` call is refused.
#[derive(PartialEq, Eq, Structural, Debug, Clone, Copy)]
pub enum IotaError {
    /// A literal does not fit an `i128`.
    ParseFailed,
    /// A bound is neither a literal nor a negated literal.
    NotALiteral,
    /// The range has no start bound.
    MissingStart,
    /// The range has no end bound.
    MissingEnd,
}

/// The text reported for each error.
pub open spec fn message_text(e: IotaError) -> Seq<char> {
    match e {
        IotaError::ParseFailed => "Failed to parse integer"@,
        IotaError::NotALiteral => "Expected a literal integer value"@,
        IotaError::MissingStart => "Range must have an explicit start bound"@,
        IotaError::MissingEnd => "Range must have an explicit end bound"@,
    }
}

impl IotaError {
    /// The message the macro reports.
    pub fn message(&self) -> (r: &'static str)
        ensures
            r@ == message_text(*self),
    {
        match self {
            IotaError::ParseFailed => "Failed to parse integer",
            IotaError::NotALiteral => "Expected a literal integer value",
            IotaError::MissingStart => "Range must have an explicit start bound",
            IotaError::MissingEnd => "Range must have an explicit end bound",
        }
    }
}

/// Every literal in `e` is written without a sign (as integer tokens are).
pub open spec fn unsigned_literals(e: IntExpr) -> bool
    decreases e,
{
    match e {
        IntExpr::Lit(Some(v)) => v >= 0,
        IntExpr::Lit(None) => true,
        IntExpr::Neg(x) => unsigned_literals(*x),
        IntExpr::Other => true,
    }
}

/// The value of a bound, or why it has none.
pub open spec fn int_value(e: IntExpr) -> Result<int, IotaError>
    decreases e,
{
    match e {
        IntExpr::Lit(Some(v)) => Ok(v as int),
        IntExpr::Lit(None) => Err(IotaError::ParseFailed),
        IntExpr::Neg(x) => match int_value(*x) {
            Ok(v) => Ok(-v),
            Err(err) => Err(err),
        },
        IntExpr::Other => Err(IotaError::NotALiteral),
    }
}

/// The value of an unsigned literal with signs in front stays within `-i128::MAX..=i128::MAX`.
pub proof fn lemma_int_value_range(e: IntExpr)
    requires
        unsigned_literals(e),
    ensures
        int_value(e) matches Ok(v) ==> -i128::MAX <= v <= i128::MAX,
    decreases e,
{
    if let IntExpr::Neg(x) = e {
        lemma_int_value_range(*x);
    }
}

/// Evaluates a bound: a literal, or the negation of a bound.
pub fn eval_int(expr: &IntExpr) -> (r: Result<i128, IotaError>)
    requires
        unsigned_literals(*expr),
    ensures
        match r {
            Ok(v) => int_value(*expr) == Ok::<int, IotaError>(v as int),
            Err(err) => int_value(*expr) == Err::<int, IotaError>(err),
        },
    decreases expr,
{
    match expr {
        IntExpr::Lit(Some(v)) => Ok(*v),
        IntExpr::Lit(None) => Err(IotaError::ParseFailed),
        IntExpr::Neg(x) => {
            let val = eval_int(x);
            match val {
                Ok(v) => {
                    proof {
                        lemma_int_value_range(**x);
                    }
                    Ok(-v)
                },
                Err(err) => Err(err),
            }
        },
        IntExpr::Other => Err(IotaError::NotALiteral),
    }
}

/// How many values the range from `start` to `end` holds (`end` itself too
/// when `inclusive`).
pub open spec fn range_len(start: int, end: int, inclusive: bool) -> int {
    let stop = if inclusive { end + 1 } else { end };
    if stop <= start { 0 } else { stop - start }
}

/// The values `start, start + 1, ...` below `end` (up to `end` when `inclusive`).
pub fn iota_values(start: i128, end: i128, inclusive: bool) -> (r: Vec<i128>)
    requires
        range_len(start as int, end as int, inclusive) <= usize::MAX,
    ensures
        r@.len() == range_len(start as int, end as int, inclusive),
        forall|i: int| 0 <= i < r@.len() ==> #[trigger] r@[i] == start + i,
{
    let mut values: Vec<i128> = Vec::new();
    if start > end || (start == end && !inclusive) {
        return values;
    }
    let mut x = start;
    loop
        invariant_except_break
            values@.len() == x - start,
            forall|i: int| 0 <= i < values@.len() ==> #[trigger] values@[i] == start + i,
        invariant
            start <= x <= end,
            range_len(start as int, end as int, inclusive) <= usize::MAX,
            !inclusive ==> x < end,
            range_len(start as int, end as int, inclusive) == if inclusive { end - start + 1 } else { end - start },
        ensures
            values@.len() == range_len(start as int, end as int, inclusive),
            forall|i: int| 0 <= i < values@.len() ==> #[trigger] values@[i] == start + i,
        decreases end - x,
    {
        values.push(x);
        if x == end || (!inclusive && x + 1 == end) {
            break;
        }
        x = x + 1;
    }
    values
}

/// What an `iota!` call with bounds `start` and `end` expands to: the list of
/// values of the range, or why it is refused (the start bound is looked at first).
pub open spec fn iota_result(start: Option<IntExpr>, end: Option<IntExpr>, inclusive: bool) -> Result<Seq<int>, IotaError> {
    match start {
        None => Err(IotaError::MissingStart),
        Some(s) => match end {
            None => Err(IotaError::MissingEnd),
            Some(e) => match int_value(s) {
                Err(err) => Err(err),
                Ok(a) => match int_value(e) {
                    Err(err) => Err(err),
                    Ok(b) => Ok(Seq::new(range_len(a, b, inclusive) as nat, |i: int| a + i)),
                },
            },
        },
    }
}

/// The values of an `iota!` range with bounds `start` and `end`, or why the
/// call is refused.
pub fn iota_plan(start: Option<IntExpr>, end: Option<IntExpr>, inclusive: bool) -> (r: Result<Vec<i128>, IotaError>)
    requires
        start matches Some(s) ==> unsigned_literals(s),
        end matches Some(e) ==> unsigned_literals(e),
        iota_result(start, end, inclusive) matches Ok(v) ==> v.len() <= usize::MAX,
    ensures
        match r {
            Ok(v) => iota_result(start, end, inclusive) == Ok::<Seq<int>, IotaError>(v@.map_values(|x: i128| x as int)),
            Err(err) => iota_result(start, end, inclusive) == Err::<Seq<int>, IotaError>(err),
        },
{
    let s = match start {
        Some(s) => s,
        None => {
            return Err(IotaError::MissingStart);
        },
    };
    let e = match end {
        Some(e) => e,
        None => {
            return Err(IotaError::MissingEnd);
        },
    };
    let a = match eval_int(&s) {
        Ok(v) => v,
        Err(err) => {
            return Err(err);
        },
    };
    let b = match eval_int(&e) {
        Ok(v) => v,
        Err(err) => {
            return Err(err);
        },
    };
    let values = iota_values(a, b, inclusive);
    proof {
        let expect = Seq::new(range_len(a as int, b as int, inclusive) as nat, |i: int| a + i);
        assert(values@.map_values(|x: i128| x as int) =~= expect);
    }
    Ok(values)
}

/// Where the error of a refused `iota!` call is reported.
#[derive(PartialEq, Eq, Structural, Debug, Clone, Copy)]
pub enum IotaSpan {
    /// The whole range: a bound is missing.
    Range,
    /// The start bound, which is evaluated first.
    Start,
    /// The end bound.
    End,
}

/// Where the error of a call with bounds `start` and `end` is reported: the
/// range where a bound is missing, else the first bound that has no value.
pub fn iota_error_span(start: &Option<IntExpr>, end: &Option<IntExpr>) -> (r: IotaSpan)
    requires
        *start matches Some(s) ==> unsigned_literals(s),
    ensures
        r == if *start is None || *end is None {
            IotaSpan::Range
        } else if int_value(start->Some_0) is Err {
            IotaSpan::Start
        } else {
            IotaSpan::End
        },
{
    match (start, end) {
        (Some(s), Some(_)) => {
            if eval_int(s).is_err() {
                IotaSpan::Start
            } else {
                IotaSpan::End
            }
        },
        _ => IotaSpan::Range,
    }
}

} // verus!
