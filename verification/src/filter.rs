//! The dynamic filter model: one fully optional predicate slot per
//! queryable field. An absent slot constrains nothing, so an empty
//! filter matches every stored record.

use crate::strutil::{
    contains_sub, is_prefix, is_suffix, str_contains, str_ends_with, str_eq, str_starts_with,
};
use vstd::prelude::*;

verus! {

/// How a string pattern is compared against a stored column.
#[derive(Clone, Copy, Debug, PartialEq, Eq, Structural)]
pub enum PatternMode {
    Equal,
    Contain,
    Start,
    End,
}

/// A predicate on one string column.
#[derive(Debug)]
pub struct StringPattern {
    pub mode: PatternMode,
    pub value: String,
}

/// A predicate on one numeric column: zero, one or two independent
/// bounds.
#[derive(Clone, Copy, Debug)]
pub struct NumberRange {
    pub min: Option<i64>,
    pub max: Option<i64>,
}

/// An independent, fully optional predicate set, one slot per queryable
/// field. Absent slot means no constraint on that field.
#[derive(Debug)]
pub struct FilterConfig {
    pub label: Option<StringPattern>,
    pub role: Option<StringPattern>,
    pub file: Option<StringPattern>,
    pub function: Option<StringPattern>,
    pub level: Option<NumberRange>,
    pub time: Option<NumberRange>,
    pub process_id: Option<NumberRange>,
    pub thread_id: Option<NumberRange>,
    pub line: Option<NumberRange>,
    pub messages: Option<StringPattern>,
}

/// One of the ten queryable and orderable columns.
#[derive(Clone, Copy, Debug, PartialEq, Eq, Structural)]
pub enum MessageField {
    Id,
    Role,
    Label,
    File,
    Function,
    Time,
    ProcessId,
    ThreadId,
    Line,
    Level,
}

/// What a string pattern means: equality, substring, prefix or suffix
/// of the column's characters.
pub open spec fn pattern_matches(mode: PatternMode, value: Seq<char>, s: Seq<char>) -> bool {
    match mode {
        PatternMode::Equal => s == value,
        PatternMode::Contain => contains_sub(s, value),
        PatternMode::Start => is_prefix(s, value),
        PatternMode::End => is_suffix(s, value),
    }
}

/// What a number range means: each present bound constrains the value
/// independently; a range with both bounds absent admits everything.
pub open spec fn range_matches(r: NumberRange, x: int) -> bool {
    &&& match r.min {
        Some(m) => x >= m,
        None => true,
    }
    &&& match r.max {
        Some(m) => x <= m,
        None => true,
    }
}

/// Whether every predicate slot of the filter is absent.
pub open spec fn config_is_empty(c: FilterConfig) -> bool {
    &&& c.label is None
    &&& c.role is None
    &&& c.file is None
    &&& c.function is None
    &&& c.level is None
    &&& c.time is None
    &&& c.process_id is None
    &&& c.thread_id is None
    &&& c.line is None
    &&& c.messages is None
}

/// Law: a range with only the lower bound present admits exactly the
/// values at or above that bound — every value below it is excluded and
/// every value at or above it is included.
pub proof fn lemma_min_only_range(r: NumberRange, m: i64, x: int)
    requires
        r.min == Some(m),
        r.max is None,
    ensures
        range_matches(r, x) <==> x >= m,
{
}

/// Evaluates a string pattern against one column value.
pub fn eval_pattern(p: &StringPattern, s: &str) -> (r: bool)
    ensures
        r == pattern_matches(p.mode, p.value@, s@),
{
    match p.mode {
        PatternMode::Equal => str_eq(s, p.value.as_str()),
        PatternMode::Contain => str_contains(s, p.value.as_str()),
        PatternMode::Start => str_starts_with(s, p.value.as_str()),
        PatternMode::End => str_ends_with(s, p.value.as_str()),
    }
}

/// Evaluates a number range against an unsigned 64-bit column value.
pub fn eval_range_u64(r: &NumberRange, x: u64) -> (res: bool)
    ensures
        res == range_matches(*r, x as int),
{
    let min_ok = match r.min {
        Some(m) => {
            if m < 0 {
                true
            } else {
                x >= (m as u64)
            }
        },
        None => true,
    };
    let max_ok = match r.max {
        Some(m) => {
            if m < 0 {
                false
            } else {
                x <= (m as u64)
            }
        },
        None => true,
    };
    min_ok && max_ok
}

/// Evaluates a number range against a signed 32-bit column value.
pub fn eval_range_i32(r: &NumberRange, x: i32) -> (res: bool)
    ensures
        res == range_matches(*r, x as int),
{
    let xs = x as i64;
    let min_ok = match r.min {
        Some(m) => xs >= m,
        None => true,
    };
    let max_ok = match r.max {
        Some(m) => xs <= m,
        None => true,
    };
    min_ok && max_ok
}

} // verus!
