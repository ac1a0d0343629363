//! Relational-algebra expressions built from parsed calls such as
//! `Values(v: [id, vals], [[100, 'confidential'], [101, 'top secret']])`.
use vstd::prelude::*;

use crate::program::Keyword;
use crate::value::DataValue;

verus! {

/// Errors raised while building a relational-algebra expression.
#[derive(Debug)]
pub enum AlgebraParseError {
    /// The operator cannot follow another one.
    Unchainable(String),
    WrongArgumentCount(String),
    /// Operator name, argument position, and the kind of syntax found there.
    WrongArgumentType(String, usize, String),
    TableNotFound(String),
    TableIdNotFound(u32),
    NotEnoughArguments(String),
    /// A row that does not fit the schema.
    ValueError(Vec<DataValue>),
}

/// The syntactic kind of a parsed argument.
#[derive(Clone, Copy, Debug, PartialEq, Eq, Structural)]
pub enum ParseRule {
    /// `binding: [column, ..]`
    ScopedList,
    /// A literal expression: a list of rows.
    Expr,
    Ident,
}

/// The name of a syntactic kind.
pub open spec fn rule_text(r: ParseRule) -> Seq<char> {
    match r {
        ParseRule::ScopedList => "scoped_list"@,
        ParseRule::Expr => "expr"@,
        ParseRule::Ident => "ident"@,
    }
}

/// The name of a syntactic kind.
pub fn rule_name(r: ParseRule) -> (s: String)
    ensures
        s@ == rule_text(r),
{
    let s = match r {
        ParseRule::ScopedList => "scoped_list",
        ParseRule::Expr => "expr",
        ParseRule::Ident => "ident",
    };
    proof {
        reveal_strlit("scoped_list");
        reveal_strlit("expr");
        reveal_strlit("ident");
    }
    s.to_string()
}

/// One parsed argument of a call: its kind, the names it holds (for a scoped
/// list, the binding and then the columns) and the rows it holds (for an
/// expression).
#[derive(Clone, Debug)]
pub struct RaArg {
    pub rule: ParseRule,
    pub names: Vec<Keyword>,
    pub rows: Vec<Vec<DataValue>>,
}

/// One parsed call of a chain, such as `Values(..)`.
#[derive(Clone, Debug)]
pub struct RaCall {
    pub name: Keyword,
    pub args: Vec<RaArg>,
}

/// The name of the operator that makes a relation from literal rows.
pub open spec fn values_name() -> Seq<char> {
    "Values"@
}

/// The name of the operator that makes a relation from literal rows.
fn values_string() -> (s: String)
    ensures
        s@ == values_name(),
{
    proof {
        reveal_strlit("Values");
    }
    "Values".to_string()
}

/// A column of a literal relation: its name and position.
#[derive(Clone, Debug)]
pub struct ColumnIdx {
    pub name: Keyword,
    pub col_idx: usize,
}

/// A relation given by literal rows under one binding.
#[derive(Debug)]
pub struct RaFromValues {
    pub binding: Keyword,
    pub columns: Vec<ColumnIdx>,
    pub values: Vec<Vec<DataValue>>,
}

/// Checks that an argument is of the kind `rule`; `name` and `u` say which
/// operator and argument position are being read.
pub fn assert_rule(pair: &RaArg, rule: ParseRule, name: &str, u: usize) -> (r: Result<(), AlgebraParseError>)
    ensures
        r is Ok <==> pair.rule == rule,
        r is Err ==> match r->Err_0 {
            AlgebraParseError::WrongArgumentType(n, i, found) => n@ == name@ && i == u && found@ == rule_text(pair.rule),
            _ => false,
        },
{
    if pair.rule == rule {
        Ok(())
    } else {
        Err(AlgebraParseError::WrongArgumentType(name.to_string(), u, rule_name(pair.rule)))
    }
}

/// The first row whose length is not `n`, if any.
pub open spec fn first_bad_row(rows: Seq<Vec<DataValue>>, n: int, i: int) -> bool {
    &&& 0 <= i < rows.len()
    &&& rows[i]@.len() != n
    &&& forall|j: int| 0 <= j < i ==> (#[trigger] rows[j])@.len() == n
}

/// Copies rows of values.
fn copy_rows(rows: &Vec<Vec<DataValue>>, n: usize) -> (r: Result<Vec<Vec<DataValue>>, AlgebraParseError>)
    ensures
        r is Ok <==> forall|j: int| 0 <= j < rows@.len() ==> (#[trigger] rows@[j])@.len() == n,
        r is Ok ==> forall|j: int| 0 <= j < r->Ok_0@.len() ==> (#[trigger] r->Ok_0@[j])@.len() == n,
        r is Ok ==> r->Ok_0@.len() == rows@.len() && forall|j: int, k: int|
            0 <= j < rows@.len() && 0 <= k < n ==> (#[trigger] r->Ok_0@[j]@[k])@ == rows@[j]@[k]@,
        r is Err ==> match r->Err_0 {
            AlgebraParseError::ValueError(row) => exists|i: int| #[trigger] first_bad_row(rows@, n as int, i)
                && row@.len() == rows@[i]@.len()
                && forall|k: int| 0 <= k < row@.len() ==> (#[trigger] row@[k])@ == rows@[i]@[k]@,
            _ => false,
        },
{
    let mut out: Vec<Vec<DataValue>> = Vec::new();
    let mut j: usize = 0;
    while j < rows.len()
        invariant
            j <= rows.len(),
            out@.len() == j,
            forall|a: int| 0 <= a < j ==> (#[trigger] rows@[a])@.len() == n,
            forall|a: int, k: int| 0 <= a < j && 0 <= k < n ==> (#[trigger] out@[a]@[k])@ == rows@[a]@[k]@,
            forall|a: int| 0 <= a < j ==> (#[trigger] out@[a])@.len() == n,
        decreases rows.len() - j,
    {
        let row = copy_row(&rows[j]);
        if rows[j].len() != n {
            proof {
                assert(first_bad_row(rows@, n as int, j as int));
            }
            return Err(AlgebraParseError::ValueError(row));
        }
        out.push(row);
        j += 1;
    }
    Ok(out)
}

/// A copy of a row of values.
fn copy_row(row: &Vec<DataValue>) -> (r: Vec<DataValue>)
    ensures
        r@.len() == row@.len(),
        forall|k: int| 0 <= k < row@.len() ==> (#[trigger] r@[k])@ == row@[k]@,
{
    let mut r: Vec<DataValue> = Vec::new();
    let mut k: usize = 0;
    while k < row.len()
        invariant
            k <= row.len(),
            r@.len() == k,
            forall|a: int| 0 <= a < k ==> (#[trigger] r@[a])@ == row@[a]@,
        decreases row.len() - k,
    {
        r.push(row[k].duplicate());
        k += 1;
    }
    r
}

/// Whether the arguments of `Values` are a scoped list with a binding and
/// an expression whose rows all have one value per column.
pub open spec fn values_ok(args: Seq<RaArg>) -> bool {
    &&& args.len() >= 2
    &&& args[0].rule == ParseRule::ScopedList
    &&& args[0].names@.len() >= 1
    &&& args[1].rule == ParseRule::Expr
    &&& forall|j: int| 0 <= j < args[1].rows@.len() ==> (#[trigger] args[1].rows@[j])@.len() == args[0].names@.len() - 1
}

/// Whether `v` is the relation that the arguments of `Values` describe.
pub open spec fn values_match(v: RaFromValues, args: Seq<RaArg>) -> bool {
    &&& v.binding@ == args[0].names@[0]@
    &&& v.columns@.len() == args[0].names@.len() - 1
    &&& forall|i: int| 0 <= i < v.columns@.len() ==> (#[trigger] v.columns@[i]).name@
        == args[0].names@[i + 1]@ && v.columns@[i].col_idx == i
    &&& v.values@.len() == args[1].rows@.len()
    &&& forall|j: int| 0 <= j < v.values@.len() ==> (#[trigger] v.values@[j])@.len() == v.columns@.len()
    &&& forall|j: int, k: int| 0 <= j < v.values@.len() && 0 <= k < v.columns@.len()
        ==> (#[trigger] v.values@[j]@[k])@ == args[1].rows@[j]@[k]@
}

/// Whether `e` is the error that `Values` with arguments `args` gives: the
/// first failing check in argument order decides.
pub open spec fn values_error(chained: bool, args: Seq<RaArg>, e: AlgebraParseError) -> bool {
    match e {
        AlgebraParseError::Unchainable(n) => chained && n@ == values_name(),
        AlgebraParseError::NotEnoughArguments(n) => !chained && n@ == values_name() && (
            args.len() == 0
            || (args[0].rule == ParseRule::ScopedList && (args[0].names@.len() == 0 || args.len() == 1))),
        AlgebraParseError::WrongArgumentType(n, i, found) => !chained && n@ == values_name() && (
            (i == 0 && args.len() >= 1 && args[0].rule != ParseRule::ScopedList && found@ == rule_text(args[0].rule))
            || (i == 1 && args.len() >= 2 && args[0].rule == ParseRule::ScopedList && args[0].names@.len() >= 1
                && args[1].rule != ParseRule::Expr && found@ == rule_text(args[1].rule))),
        AlgebraParseError::ValueError(row) => !chained && args.len() >= 2 && args[0].rule == ParseRule::ScopedList
            && args[0].names@.len() >= 1 && args[1].rule == ParseRule::Expr
            && exists|i: int| #[trigger] first_bad_row(args[1].rows@, args[0].names@.len() - 1, i)
                && row@.len() == args[1].rows@[i]@.len()
                && forall|k: int| 0 <= k < row@.len() ==> (#[trigger] row@[k])@ == args[1].rows@[i]@[k]@,
        _ => false,
    }
}

impl RaFromValues {
    /// The operator's name.
    pub fn name(&self) -> (r: String)
        ensures
            r@ == values_name(),
    {
        values_string()
    }

    /// Builds the relation of `Values(binding: [columns..], rows)`; `chained`
    /// says whether it follows another operator, which it cannot.
    pub fn build(chained: bool, args: &Vec<RaArg>) -> (r: Result<RaFromValues, AlgebraParseError>)
        ensures
            r is Ok <==> !chained && values_ok(args@),
            r is Ok ==> values_match(r->Ok_0, args@),
            r is Err ==> values_error(chained, args@, r->Err_0),
    {
        if chained {
            return Err(AlgebraParseError::Unchainable(values_string()));
        }
        if args.len() == 0 {
            return Err(AlgebraParseError::NotEnoughArguments(values_string()));
        }
        let schema = &args[0];
        proof {
            reveal_strlit("Values");
        }
        match assert_rule(schema, ParseRule::ScopedList, "Values", 0) {
            Ok(()) => {},
            Err(e) => {
                return Err(e);
            },
        }
        if schema.names.len() == 0 {
            return Err(AlgebraParseError::NotEnoughArguments(values_string()));
        }
        let binding = schema.names[0].clone();
        let mut columns: Vec<ColumnIdx> = Vec::new();
        let mut i: usize = 1;
        while i < schema.names.len()
            invariant
                1 <= i <= schema.names@.len(),
                columns@.len() == i - 1,
                forall|c: int| 0 <= c < columns@.len() ==> (#[trigger] columns@[c]).name@
                    == schema.names@[c + 1]@ && columns@[c].col_idx == c,
            decreases schema.names.len() - i,
        {
            columns.push(ColumnIdx { name: schema.names[i].clone(), col_idx: i - 1 });
            i += 1;
        }
        let n_fields = columns.len();
        if args.len() < 2 {
            return Err(AlgebraParseError::NotEnoughArguments(values_string()));
        }
        let data = &args[1];
        match assert_rule(data, ParseRule::Expr, "Values", 1) {
            Ok(()) => {},
            Err(e) => {
                return Err(e);
            },
        }
        match copy_rows(&data.rows, n_fields) {
            Ok(values) => Ok(RaFromValues { binding, columns, values }),
            Err(e) => Err(e),
        }
    }
}

/// Builds the expression of a chain of calls. Only `Values` is an operator
/// here, and it cannot be chained.
pub fn build_ra_expr(calls: &Vec<RaCall>) -> (r: Result<RaFromValues, AlgebraParseError>)
    requires
        calls@.len() >= 1,
        forall|i: int| 0 <= i < calls@.len() ==> (#[trigger] calls@[i]).name@ == values_name(),
    ensures
        calls@.len() == 1 ==> (r is Ok <==> values_ok(calls@[0].args@)),
        r is Ok ==> calls@.len() == 1 && values_match(r->Ok_0, calls@[0].args@),
        calls@.len() == 1 && r is Err ==> values_error(false, calls@[0].args@, r->Err_0),
        calls@.len() > 1 && r is Err ==> values_error(false, calls@[0].args@, r->Err_0) || (values_ok(
            calls@[0].args@) && values_error(true, calls@[1].args@, r->Err_0)),
        calls@.len() > 1 && values_ok(calls@[0].args@) ==> (r matches Err(AlgebraParseError::Unchainable(n))
            && n@ == values_name()),
{
    let mut built: Option<RaFromValues> = None;
    let mut i: usize = 0;
    while i < calls.len()
        invariant
            i <= calls.len(),
            i <= 1,
            i == 0 <==> built is None,
            i >= 1 ==> values_ok(calls@[0].args@),
            i == 1 ==> values_match(built->0, calls@[0].args@),
        decreases calls.len() - i,
    {
        let r = RaFromValues::build(built.is_some(), &calls[i].args);
        match r {
            Ok(v) => {
                built = Some(v);
            },
            Err(e) => {
                return Err(e);
            },
        }
        i += 1;
    }
    Ok(built.unwrap())
}

} // verus!
