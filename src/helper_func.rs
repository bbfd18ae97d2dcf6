//! Reading commands out of request values.
use vstd::prelude::*;
use crate::values::{Value, ValueModel, values_model};

verus! {

/// Why a request value could not be read as expected.
#[derive(Debug, PartialEq, Eq, Structural)]
pub enum ValueError {
    /// A bulk string was expected.
    UnexpectedBulkString,
    /// The value cannot carry a command.
    UnexpectedValue,
}

/// The text of a bulk string; any other value is an error.
pub fn unpack_bulk_str(value: Value) -> (r: Result<String, ValueError>)
    ensures
        match value@ {
            ValueModel::Bulk(s) => r matches Ok(t) && t@ == s,
            _ => r == Err::<String, ValueError>(ValueError::UnexpectedBulkString),
        },
{
    match value {
        Value::BulkString(s) => Ok(s),
        _ => Err(ValueError::UnexpectedBulkString),
    }
}

/// What `extract_command` gives for a request: the command name and its arguments.
pub open spec fn command_of(v: ValueModel) -> Option<(Seq<char>, Seq<ValueModel>)> {
    match v {
        ValueModel::Simple(s) => Some((s, Seq::empty())),
        ValueModel::Bulk(s) => Some((s, Seq::empty())),
        ValueModel::Array(items) => if items.len() > 0 && items[0] is Bulk {
            Some((items[0]->Bulk_0, items.subrange(1, items.len() as int)))
        } else {
            None
        },
        ValueModel::Null => None,
    }
}

/// Splits a request into its command name and arguments: a string is a command
/// without arguments; an array holds the name as a bulk string, then the arguments.
pub fn extract_command(value: Value) -> (r: Result<(String, Vec<Value>), ValueError>)
    ensures
        match command_of(value@) {
            Some((name, args)) => r matches Ok((n, a)) && n@ == name && values_model(a@) == args,
            None => r is Err,
        },
{
    let ghost vm = value@;
    match value {
        Value::SimpleString(s) => {
            let a: Vec<Value> = Vec::new();
            assert(values_model(a@) =~= Seq::<ValueModel>::empty());
            Ok((s, a))
        },
        Value::BulkString(s) => {
            let a: Vec<Value> = Vec::new();
            assert(values_model(a@) =~= Seq::<ValueModel>::empty());
            Ok((s, a))
        },
        Value::Array(items) => {
            let ghost ms = vm->Array_0;
            assert(ms =~= values_model(items@));
            if items.len() == 0 {
                return Err(ValueError::UnexpectedValue);
            }
            let mut rest = items;
            let first = rest.remove(0);
            assert(values_model(rest@) =~= ms.subrange(1, ms.len() as int));
            match unpack_bulk_str(first) {
                Ok(name) => Ok((name, rest)),
                Err(e) => Err(e),
            }
        },
        Value::Null => Err(ValueError::UnexpectedValue),
    }
}

} // verus!
