pub mod analyzer;
pub mod parser;

use vstd::prelude::*;

use crate::Pid;
use crate::bytes::{signed_dec_ok, signed_dec_value};
use crate::time::{Duration, Timestamp};

verus! {

/// One scanned trace line: the header (pid and absolute timestamp) and the
/// lazily inspected record body. `line` keeps the raw text for log sinks.
#[derive(Debug, Clone)]
pub struct Line {
    pub pid: Pid,
    pub timestamp: Timestamp,
    pub event: Event,
    pub line: Vec<u8>,
}

/// The four record bodies a trace line can carry.
#[derive(Debug, Clone)]
pub enum Event {
    Syscall(SyscallEvent),
    Signal { signal: Vec<u8> },
    Exited(ExitedEvent),
    KilledBy { signal: Vec<u8> },
}

/// A system-call record. `args` and `result` hold the raw argument and
/// result text; they are parsed into `Value` trees only on demand.
#[derive(Debug, Clone)]
pub struct SyscallEvent {
    pub name: Vec<u8>,
    pub args: Vec<u8>,
    pub result: Vec<u8>,
    pub duration: Duration,
}

/// The body of an `+++ exited with code +++` record.
#[derive(Debug, Clone)]
pub struct ExitedEvent {
    pub code: Vec<u8>,
}

impl SyscallEvent {
    /// Parses the argument text into its comma-separated fields: the call
    /// succeeds exactly when the argument-list model accepts the text,
    /// and returns exactly the modelled fields.
    pub fn args(&self) -> (r: Result<Fields, parser::StraceParseError>)
        ensures
            match r {
                Ok(f) => parser::scan_args(self.args@) == Some(
                    parser::field_views(f.values@),
                ),
                Err(_) => parser::scan_args(self.args@) is None,
            },
    {
        parser::parse_args(self.args.as_slice())
    }

    /// Parses the result text, exactly per `syscall_result_model`: a `?`
    /// (interrupted call) or empty result carries no returned value;
    /// anything else must begin with a parseable value, whose trailing
    /// free text (such as an errno explanation) is ignored.
    pub fn result(&self) -> (r: Result<SyscallResult, parser::StraceParseError>)
        ensures
            match r {
                Ok(sr) => (parser::syscall_result_model(self.result@) matches Some(ret) && (
                match (sr.returned, ret) {
                    (None, None) => true,
                    (Some(v), Some(m)) => parser::view_value(v) == m,
                    _ => false,
                })),
                Err(_) => parser::syscall_result_model(self.result@) is None,
            },
    {
        let s = self.result.as_slice();
        if s.len() == 0 || s[0] == 63 {
            return Ok(SyscallResult { returned: None });
        }
        let (value, _rest) = parser::parse_value(s, 0)?;
        Ok(SyscallResult { returned: Some(value) })
    }
}

impl ExitedEvent {
    /// Parses the exit-code text as a single value: the call succeeds
    /// exactly when the whole-value model accepts the text, and returns
    /// exactly the modelled value.
    pub fn code(&self) -> (r: Result<Value, parser::StraceParseError>)
        ensures
            match r {
                Ok(v) => parser::scan_whole_value(self.code@) == Some(parser::view_value(v)),
                Err(_) => parser::scan_whole_value(self.code@) is None,
            },
    {
        parser::parse_whole_value(self.code.as_slice())
    }
}

/// The parsed outcome of a system call: the returned value, when the
/// tracer printed one.
#[derive(Debug)]
pub struct SyscallResult {
    pub returned: Option<Value>,
}

/// The recursive tree a record's argument or result text parses into.
#[derive(Debug, PartialEq, Eq)]
pub enum Value {
    String(Vec<u8>),
    TruncatedString(Vec<u8>),
    Expression(Vec<u8>),
    FunctionCall { function: Vec<u8>, args: Vec<Field> },
    Struct(Vec<Field>),
    SparseArray(Vec<(Value, Value)>),
    Array(Vec<Value>),
    NotBitset(Vec<Value>),
    Annotated { value: Box<Value>, annotation: Vec<u8>, deleted: bool },
    Commented { value: Box<Value>, comment: Vec<u8> },
    Changed { from: Box<Value>, to: Box<Value> },
    Alternative { left: Box<Value>, right: Box<Value> },
    BinaryOperations { first: Box<Value>, operators_and_operands: Vec<(BinaryOperator, Value)> },
    Truncated,
}

#[derive(Debug, Clone, Copy, PartialEq, Eq, Structural)]
pub enum BinaryOperator {
    And,
    Or,
    Equal,
    NotEqual,
}

/// An argument or struct member: an optional name and a value.
#[derive(Debug, PartialEq, Eq)]
pub struct Field {
    pub name: Option<Vec<u8>>,
    pub value: Value,
}

/// The argument fields of one system call.
#[derive(Debug, PartialEq, Eq)]
pub struct Fields {
    pub values: Vec<Field>,
}

impl Fields {
    /// The value in the field at `index`, if there is one.
    pub fn value_at_index(&self, index: usize) -> (r: Option<&Value>)
        ensures
            match r {
                Some(v) => index < self.values@.len() && *v == self.values@[index as int].value,
                None => index >= self.values@.len(),
            },
    {
        if index < self.values.len() {
            Some(&self.values[index].value)
        } else {
            None
        }
    }
}

/// The byte string a value displays as: the contents of a string (with a
/// `...` marker re-attached to a truncated one), or the displayable side
/// of a wrapped value, or an annotation when the annotated value itself
/// has no byte form.
pub open spec fn to_bstring_spec(v: Value) -> Option<Seq<u8>>
    decreases v,
{
    match v {
        Value::String(b) => Some(b@),
        Value::TruncatedString(b) => Some(b@ + seq![46u8, 46u8, 46u8]),
        Value::Annotated { value, annotation, deleted: _ } => match to_bstring_spec(*value) {
            Some(b) => Some(b),
            None => Some(annotation@),
        },
        Value::Commented { value, comment: _ } => to_bstring_spec(*value),
        Value::Changed { from, to: _ } => to_bstring_spec(*from),
        Value::Alternative { left, right: _ } => to_bstring_spec(*left),
        _ => None,
    }
}

impl Value {
    /// See `to_bstring_spec`.
    pub fn to_bstring(&self) -> (r: Option<Vec<u8>>)
        ensures
            match r {
                Some(b) => to_bstring_spec(*self) == Some(b@),
                None => to_bstring_spec(*self) is None,
            },
        decreases *self,
    {
        match self {
            Value::String(b) => Some(b.clone()),
            Value::TruncatedString(b) => {
                let mut out = b.clone();
                out.push(46);
                out.push(46);
                out.push(46);
                proof {
                    assert(out@ =~= b@ + seq![46u8, 46u8, 46u8]);
                }
                Some(out)
            },
            Value::Annotated { value, annotation, deleted: _ } => match value.to_bstring() {
                Some(b) => Some(b),
                None => Some(annotation.clone()),
            },
            Value::Commented { value, comment: _ } => value.to_bstring(),
            Value::Changed { from, to: _ } => from.to_bstring(),
            Value::Alternative { left, right: _ } => left.to_bstring(),
            _ => None,
        }
    }

    /// The element list, for an `Array` value only.
    pub fn as_array(&self) -> (r: Option<&Vec<Value>>)
        ensures
            match r {
                Some(vs) => *self matches Value::Array(items) && *vs == items,
                None => !(*self matches Value::Array(_)),
            },
    {
        if let Value::Array(values) = self {
            Some(values)
        } else {
            None
        }
    }

    /// The expression text read as a decimal `i32`, as `str::parse` reads
    /// it: an optional sign and digits, within range.
    pub fn as_i32(&self) -> (r: Option<i32>)
        ensures
            match r {
                Some(n) => *self matches Value::Expression(e) && signed_dec_ok(e@)
                    && n == signed_dec_value(e@),
                None => match *self {
                    Value::Expression(e) => !(signed_dec_ok(e@) && i32::MIN <= signed_dec_value(
                        e@,
                    ) <= i32::MAX),
                    _ => true,
                },
            },
    {
        if let Value::Expression(e) = self {
            crate::bytes::parse_i32(e.as_slice())
        } else {
            None
        }
    }
}

} // verus!
