//! Builds the relational form of a filter: one parameterized condition
//! per present predicate slot, conjoined with `AND`. Every literal
//! value is handed back as a bound parameter, never interpolated into
//! the query text, so producer-controlled strings cannot reach the
//! query as text.

use crate::filter::{FilterConfig, NumberRange, PatternMode, StringPattern};
use vstd::prelude::*;
use vstd::string::StringExecFns;

verus! {

/// A value bound into a query at a placeholder.
#[derive(Debug, PartialEq)]
pub enum SqlParam {
    Text(String),
    Int(i64),
}

/// The mathematical shape of a bound parameter.
pub enum SqlParamView {
    Text(Seq<char>),
    Int(i64),
}

impl View for SqlParam {
    type V = SqlParamView;

    open spec fn view(&self) -> SqlParamView {
        match self {
            SqlParam::Text(s) => SqlParamView::Text(s@),
            SqlParam::Int(x) => SqlParamView::Int(*x),
        }
    }
}

impl DeepView for SqlParam {
    type V = SqlParamView;

    open spec fn deep_view(&self) -> SqlParamView {
        self.view()
    }
}

/// The condition text of one string pattern on a column.
pub open spec fn string_cond(column: Seq<char>, p: StringPattern) -> Seq<char> {
    match p.mode {
        PatternMode::Equal => column + " = ?"@,
        _ => column + " LIKE ?"@,
    }
}

/// The parameter bound for one string pattern: the value itself for an
/// equality, the value wrapped in wildcards for substring, prefix and
/// suffix matching.
pub open spec fn string_param(p: StringPattern) -> SqlParamView {
    match p.mode {
        PatternMode::Equal => SqlParamView::Text(p.value@),
        PatternMode::Contain => SqlParamView::Text("%"@ + p.value@ + "%"@),
        PatternMode::Start => SqlParamView::Text(p.value@ + "%"@),
        PatternMode::End => SqlParamView::Text("%"@ + p.value@),
    }
}

/// The condition text of one number range on a column: one comparison
/// per present bound; a range with no bounds contributes a vacuous
/// condition.
pub open spec fn range_cond(column: Seq<char>, r: NumberRange) -> Seq<char> {
    match (r.min, r.max) {
        (Some(_), Some(_)) => column + " >= ?"@ + " AND "@ + column + " <= ?"@,
        (Some(_), None) => column + " >= ?"@,
        (None, Some(_)) => column + " <= ?"@,
        (None, None) => "1=1"@,
    }
}

/// The parameters bound for one number range, lower bound first.
pub open spec fn range_params(r: NumberRange) -> Seq<SqlParamView> {
    (match r.min {
        Some(m) => seq![SqlParamView::Int(m)],
        None => Seq::empty(),
    }) + (match r.max {
        Some(m) => seq![SqlParamView::Int(m)],
        None => Seq::empty(),
    })
}

/// The condition list a string slot contributes: one condition if
/// present, none otherwise.
pub open spec fn opt_string_cond(column: Seq<char>, o: Option<StringPattern>) -> Seq<Seq<char>> {
    match o {
        Some(p) => seq![string_cond(column, p)],
        None => Seq::empty(),
    }
}

/// The parameters a string slot contributes.
pub open spec fn opt_string_param(o: Option<StringPattern>) -> Seq<SqlParamView> {
    match o {
        Some(p) => seq![string_param(p)],
        None => Seq::empty(),
    }
}

/// The condition list a numeric slot contributes.
pub open spec fn opt_range_cond(column: Seq<char>, o: Option<NumberRange>) -> Seq<Seq<char>> {
    match o {
        Some(r) => seq![range_cond(column, r)],
        None => Seq::empty(),
    }
}

/// The parameters a numeric slot contributes.
pub open spec fn opt_range_params(o: Option<NumberRange>) -> Seq<SqlParamView> {
    match o {
        Some(r) => range_params(r),
        None => Seq::empty(),
    }
}

/// The condition texts of every present slot, in slot order.
pub open spec fn conditions(c: FilterConfig) -> Seq<Seq<char>> {
    opt_string_cond("label"@, c.label) + opt_string_cond("role"@, c.role) + opt_string_cond(
        "file"@,
        c.file,
    ) + opt_string_cond("function"@, c.function) + opt_range_cond("level"@, c.level)
        + opt_range_cond("time"@, c.time) + opt_range_cond("process_id"@, c.process_id)
        + opt_range_cond("thread_id"@, c.thread_id) + opt_range_cond("line"@, c.line)
        + opt_string_cond("messages"@, c.messages)
}

/// The bound parameters of every present slot, in slot order.
pub open spec fn where_params(c: FilterConfig) -> Seq<SqlParamView> {
    opt_string_param(c.label) + opt_string_param(c.role) + opt_string_param(c.file)
        + opt_string_param(c.function) + opt_range_params(c.level) + opt_range_params(c.time)
        + opt_range_params(c.process_id) + opt_range_params(c.thread_id) + opt_range_params(c.line)
        + opt_string_param(c.messages)
}

/// The conditions joined with `AND`.
pub open spec fn joined_and(cs: Seq<Seq<char>>) -> Seq<char>
    decreases cs.len(),
{
    if cs.len() == 0 {
        Seq::empty()
    } else if cs.len() == 1 {
        cs[0]
    } else {
        cs[0] + " AND "@ + joined_and(cs.drop_first())
    }
}

/// The full where clause of a filter: empty for an empty filter, else
/// the conjoined conditions behind `WHERE`.
pub open spec fn spec_where_clause(c: FilterConfig) -> Seq<char> {
    if conditions(c).len() == 0 {
        Seq::empty()
    } else {
        "WHERE "@ + joined_and(conditions(c))
    }
}

proof fn lemma_joined_and_push(cs: Seq<Seq<char>>, x: Seq<char>)
    ensures
        joined_and(cs.push(x)) == if cs.len() == 0 {
            x
        } else {
            joined_and(cs) + " AND "@ + x
        },
    decreases cs.len(),
{
    if cs.len() == 0 {
        assert(cs.push(x)[0] == x);
        assert(cs.push(x).len() == 1);
    } else if cs.len() == 1 {
        assert(cs.push(x)[0] == cs[0]);
        assert(cs.push(x).drop_first() =~= seq![x]);
        assert(joined_and(seq![x]) == x);
        assert(joined_and(cs.push(x)) =~= joined_and(cs) + " AND "@ + x);
    } else {
        assert(cs.push(x).drop_first() =~= cs.drop_first().push(x));
        lemma_joined_and_push(cs.drop_first(), x);
        assert(cs.push(x)[0] == cs[0]);
        assert(joined_and(cs.push(x)) =~= joined_and(cs) + " AND "@ + x);
    }
}

/// Builds the condition and its bound parameter for one string pattern
/// on the named column.
pub fn build_string_condition(column: &str, pattern: &StringPattern) -> (r: (String, SqlParam))
    ensures
        r.0@ == string_cond(column@, *pattern),
        r.1@ == string_param(*pattern),
{
    match pattern.mode {
        PatternMode::Equal => {
            let mut cond = column.to_owned();
            cond.append(" = ?");
            (cond, SqlParam::Text(pattern.value.clone()))
        },
        PatternMode::Contain => {
            let mut cond = column.to_owned();
            cond.append(" LIKE ?");
            let mut v = String::from_str("%");
            v.append(pattern.value.as_str());
            v.append("%");
            (cond, SqlParam::Text(v))
        },
        PatternMode::Start => {
            let mut cond = column.to_owned();
            cond.append(" LIKE ?");
            let mut v = pattern.value.clone();
            v.append("%");
            (cond, SqlParam::Text(v))
        },
        PatternMode::End => {
            let mut cond = column.to_owned();
            cond.append(" LIKE ?");
            let mut v = String::from_str("%");
            v.append(pattern.value.as_str());
            (cond, SqlParam::Text(v))
        },
    }
}

/// Builds the condition and the bound parameters for one number range
/// on the named column: one comparison per present bound, a vacuous
/// condition when both are absent.
pub fn build_number_range_condition(column: &str, range: &NumberRange) -> (r: (
    String,
    Option<i64>,
    Option<i64>,
))
    ensures
        r.0@ == range_cond(column@, *range),
        r.1 == range.min,
        r.2 == range.max,
{
    match (range.min, range.max) {
        (Some(_), Some(_)) => {
            let mut cond = column.to_owned();
            cond.append(" >= ?");
            cond.append(" AND ");
            let mut tail = column.to_owned();
            tail.append(" <= ?");
            cond.append(tail.as_str());
            proof {
                assert(cond@ =~= column@ + " >= ?"@ + " AND "@ + column@ + " <= ?"@);
            }
            (cond, range.min, range.max)
        },
        (Some(_), None) => {
            let mut cond = column.to_owned();
            cond.append(" >= ?");
            (cond, range.min, range.max)
        },
        (None, Some(_)) => {
            let mut cond = column.to_owned();
            cond.append(" <= ?");
            (cond, range.min, range.max)
        },
        (None, None) => (String::from_str("1=1"), range.min, range.max),
    }
}

/// Appends one string slot's condition and parameter, if present.
fn add_string_slot(
    clause: &mut String,
    params: &mut Vec<SqlParam>,
    has_any: &mut bool,
    column: &str,
    o: &Option<StringPattern>,
    Ghost(cs): Ghost<Seq<Seq<char>>>,
) -> (newcs: Ghost<Seq<Seq<char>>>)
    requires
        old(clause)@ == joined_and(cs),
        *old(has_any) <==> cs.len() > 0,
    ensures
        newcs@ == cs + opt_string_cond(column@, *o),
        final(clause)@ == joined_and(newcs@),
        *final(has_any) <==> newcs@.len() > 0,
        final(params).deep_view() == old(params).deep_view() + opt_string_param(*o),
{
    match o {
        None => {
            proof {
                assert(cs + opt_string_cond(column@, *o) =~= cs);
                assert(final(params).deep_view() =~= old(params).deep_view() + opt_string_param(
                    *o,
                ));
            }
            Ghost(cs)
        },
        Some(p) => {
            let (cond, param) = build_string_condition(column, p);
            if *has_any {
                clause.append(" AND ");
            }
            clause.append(cond.as_str());
            let ghost prevps = params.deep_view();
            params.push(param);
            *has_any = true;
            proof {
                lemma_joined_and_push(cs, cond@);
                assert(cs.push(cond@) =~= cs + opt_string_cond(column@, *o));
                assert(params.deep_view() =~= prevps + opt_string_param(*o));
            }
            Ghost(cs.push(cond@))
        },
    }
}

/// Appends one numeric slot's condition and bound parameters, if
/// present.
fn add_range_slot(
    clause: &mut String,
    params: &mut Vec<SqlParam>,
    has_any: &mut bool,
    column: &str,
    o: &Option<NumberRange>,
    Ghost(cs): Ghost<Seq<Seq<char>>>,
) -> (newcs: Ghost<Seq<Seq<char>>>)
    requires
        old(clause)@ == joined_and(cs),
        *old(has_any) <==> cs.len() > 0,
    ensures
        newcs@ == cs + opt_range_cond(column@, *o),
        final(clause)@ == joined_and(newcs@),
        *final(has_any) <==> newcs@.len() > 0,
        final(params).deep_view() == old(params).deep_view() + opt_range_params(*o),
{
    match o {
        None => {
            proof {
                assert(cs + opt_range_cond(column@, *o) =~= cs);
                assert(final(params).deep_view() =~= old(params).deep_view() + opt_range_params(
                    *o,
                ));
            }
            Ghost(cs)
        },
        Some(nr) => {
            let (cond, mn, mx) = build_number_range_condition(column, nr);
            if *has_any {
                clause.append(" AND ");
            }
            clause.append(cond.as_str());
            *has_any = true;
            let ghost ps0 = params.deep_view();
            if let Some(m) = mn {
                let ghost prevps = params.deep_view();
                params.push(SqlParam::Int(m));
                proof {
                    assert(params.deep_view() =~= prevps.push(SqlParamView::Int(m)));
                }
            }
            if let Some(m) = mx {
                let ghost prevps = params.deep_view();
                params.push(SqlParam::Int(m));
                proof {
                    assert(params.deep_view() =~= prevps.push(SqlParamView::Int(m)));
                }
            }
            proof {
                lemma_joined_and_push(cs, cond@);
                assert(cs.push(cond@) =~= cs + opt_range_cond(column@, *o));
                assert(params.deep_view() =~= ps0 + opt_range_params(*o));
            }
            Ghost(cs.push(cond@))
        },
    }
}

/// Builds the full where clause and parameter list of a filter: one
/// condition per present slot, conjoined with `AND`, every literal
/// value bound as a parameter. An empty filter yields an empty clause.
pub fn get_params(config: &FilterConfig) -> (r: (String, Vec<SqlParam>))
    ensures
        r.0@ == spec_where_clause(*config),
        r.1.deep_view() == where_params(*config),
{
    let mut clause: String = String::new();
    let mut params: Vec<SqlParam> = Vec::new();
    let mut has_any = false;
    proof {
        assert(params.deep_view() =~= Seq::<SqlParamView>::empty());
        assert(Seq::<Seq<char>>::empty().len() == 0);
    }
    let cs0: Ghost<Seq<Seq<char>>> = Ghost(Seq::empty());
    let cs1 = add_string_slot(&mut clause, &mut params, &mut has_any, "label", &config.label, cs0);
    let cs2 = add_string_slot(&mut clause, &mut params, &mut has_any, "role", &config.role, cs1);
    let cs3 = add_string_slot(&mut clause, &mut params, &mut has_any, "file", &config.file, cs2);
    let cs4 = add_string_slot(
        &mut clause,
        &mut params,
        &mut has_any,
        "function",
        &config.function,
        cs3,
    );
    let cs5 = add_range_slot(&mut clause, &mut params, &mut has_any, "level", &config.level, cs4);
    let cs6 = add_range_slot(&mut clause, &mut params, &mut has_any, "time", &config.time, cs5);
    let cs7 = add_range_slot(
        &mut clause,
        &mut params,
        &mut has_any,
        "process_id",
        &config.process_id,
        cs6,
    );
    let cs8 = add_range_slot(
        &mut clause,
        &mut params,
        &mut has_any,
        "thread_id",
        &config.thread_id,
        cs7,
    );
    let cs9 = add_range_slot(&mut clause, &mut params, &mut has_any, "line", &config.line, cs8);
    let cs10 = add_string_slot(
        &mut clause,
        &mut params,
        &mut has_any,
        "messages",
        &config.messages,
        cs9,
    );
    proof {
        assert(cs10@ =~= conditions(*config));
        assert(params.deep_view() =~= where_params(*config));
    }
    if !has_any {
        (String::new(), params)
    } else {
        let mut out = String::from_str("WHERE ");
        out.append(clause.as_str());
        (out, params)
    }
}

} // verus!
