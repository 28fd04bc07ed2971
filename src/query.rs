//! The predicate language: values and boolean expressions over them.
use vstd::prelude::*;
use crate::dtype::{CmpOp, ColumnValue};
use crate::engine::names_view;

verus! {

/// A column of the row under test, or a typed constant.
#[derive(Debug)]
pub enum Value<'a> {
    ColumnRef(&'a str),
    Const(ColumnValue<'a>),
}

/// A predicate over a row.
#[derive(Debug)]
pub enum Bool<'a> {
    True,
    False,
    Eq(Value<'a>, Value<'a>),
    Neq(Value<'a>, Value<'a>),
    Gt(Value<'a>, Value<'a>),
    Gte(Value<'a>, Value<'a>),
    Lt(Value<'a>, Value<'a>),
    Lte(Value<'a>, Value<'a>),
    And(Box<Bool<'a>>, Box<Bool<'a>>),
    Or(Box<Bool<'a>>, Box<Bool<'a>>),
    Xor(Box<Bool<'a>>, Box<Bool<'a>>),
    Not(Box<Bool<'a>>),
}

impl<'a> Bool<'a> {
    pub fn or(self, other: Bool<'a>) -> (r: Bool<'a>)
        ensures
            r == Bool::Or(Box::new(self), Box::new(other)),
    {
        Bool::Or(Box::new(self), Box::new(other))
    }

    pub fn and(self, other: Bool<'a>) -> (r: Bool<'a>)
        ensures
            r == Bool::And(Box::new(self), Box::new(other)),
    {
        Bool::And(Box::new(self), Box::new(other))
    }
}

/// The comparison at the root of `b`, if there is one.
pub open spec fn comparison<'a>(b: Bool<'a>) -> Option<(CmpOp, Value<'a>, Value<'a>)> {
    match b {
        Bool::Eq(l, r) => Some((CmpOp::Eq, l, r)),
        Bool::Neq(l, r) => Some((CmpOp::Neq, l, r)),
        Bool::Gt(l, r) => Some((CmpOp::Gt, l, r)),
        Bool::Gte(l, r) => Some((CmpOp::Gte, l, r)),
        Bool::Lt(l, r) => Some((CmpOp::Lt, l, r)),
        Bool::Lte(l, r) => Some((CmpOp::Lte, l, r)),
        _ => None,
    }
}

/// The column that a value names, if any.
pub open spec fn value_columns(v: Value) -> Seq<Seq<char>> {
    match v {
        Value::ColumnRef(c) => seq![c@],
        Value::Const(_) => Seq::empty(),
    }
}

/// The columns that a predicate names, left to right.
pub open spec fn filter_columns(b: Bool) -> Seq<Seq<char>>
    decreases b,
{
    match b {
        Bool::True => Seq::empty(),
        Bool::False => Seq::empty(),
        Bool::Eq(l, r) => value_columns(l) + value_columns(r),
        Bool::Neq(l, r) => value_columns(l) + value_columns(r),
        Bool::Gt(l, r) => value_columns(l) + value_columns(r),
        Bool::Gte(l, r) => value_columns(l) + value_columns(r),
        Bool::Lt(l, r) => value_columns(l) + value_columns(r),
        Bool::Lte(l, r) => value_columns(l) + value_columns(r),
        Bool::And(l, r) => filter_columns(*l) + filter_columns(*r),
        Bool::Or(l, r) => filter_columns(*l) + filter_columns(*r),
        Bool::Xor(l, r) => filter_columns(*l) + filter_columns(*r),
        Bool::Not(x) => filter_columns(*x),
    }
}

fn collect_value_columns<'a>(value: &'a Value, out: &mut Vec<&'a str>)
    ensures
        names_view(final(out)@) == names_view(old(out)@) + value_columns(*value),
{
    let ghost before = out@;
    match value {
        Value::ColumnRef(col) => {
            out.push(col);
            assert(names_view(out@) =~= names_view(before) + value_columns(*value));
        },
        Value::Const(_) => {
            assert(names_view(out@) =~= names_view(before) + value_columns(*value));
        },
    }
}

fn collect_into<'a>(bool_expr: &'a Bool, out: &mut Vec<&'a str>)
    ensures
        names_view(final(out)@) == names_view(old(out)@) + filter_columns(*bool_expr),
    decreases bool_expr,
{
    let ghost before = names_view(out@);
    match bool_expr {
        Bool::True | Bool::False => {
            assert(names_view(out@) =~= before + filter_columns(*bool_expr));
        },
        Bool::Eq(left, right) | Bool::Neq(left, right) | Bool::Gt(left, right) | Bool::Gte(left, right)
        | Bool::Lt(left, right) | Bool::Lte(left, right) => {
            collect_value_columns(left, out);
            collect_value_columns(right, out);
            assert(names_view(out@) =~= before + filter_columns(*bool_expr));
        },
        Bool::And(left, right) | Bool::Or(left, right) | Bool::Xor(left, right) => {
            collect_into(left, out);
            collect_into(right, out);
            assert(names_view(out@) =~= before + filter_columns(*bool_expr));
        },
        Bool::Not(inner) => {
            collect_into(inner, out);
        },
    }
}

/// The names of the columns that a predicate refers to, left to right.
pub fn collect_filter_columns<'a>(bool_expr: &'a Bool) -> (r: Vec<&'a str>)
    ensures
        names_view(r@) == filter_columns(*bool_expr),
{
    let mut out: Vec<&'a str> = Vec::new();
    collect_into(bool_expr, &mut out);
    assert(names_view(Seq::<&str>::empty()) =~= Seq::<Seq<char>>::empty());
    out
}

} // verus!
