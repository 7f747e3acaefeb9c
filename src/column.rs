//! Typed column storage and the host-facing cell value.
use vstd::prelude::*;
use crate::number::{is_nan, is_nan_bits, NULL_NUMBER};

verus! {

/// A value as the host hands it in or gets it back. A number is the bit
/// pattern of an IEEE-754 double; a NaN pattern reads back as `Null`.
pub enum Value {
    Text(String),
    Number(u64),
    Null,
}

/// What a text column stores for a value: the text itself, else the empty string.
pub open spec fn text_of_value(v: Value) -> Seq<char> {
    match v {
        Value::Text(s) => s@,
        _ => Seq::empty(),
    }
}

/// What a number column stores for a value: the number itself, else the null NaN.
pub open spec fn number_of_value(v: Value) -> u64 {
    match v {
        Value::Number(b) => b,
        _ => NULL_NUMBER,
    }
}

/// The cells of one column, one per row.
pub enum ColumnData {
    Strings(Vec<String>),
    Numbers(Vec<u64>),
}

impl ColumnData {
    pub open spec fn spec_len(&self) -> nat {
        match self {
            ColumnData::Strings(v) => v@.len(),
            ColumnData::Numbers(v) => v@.len(),
        }
    }

    /// The text stored at row `i` of a text column.
    pub open spec fn text_at(&self, i: int) -> Seq<char> {
        match self {
            ColumnData::Strings(v) => v@[i]@,
            ColumnData::Numbers(_) => Seq::empty(),
        }
    }

    /// The bits stored at row `i` of a number column.
    pub open spec fn number_at(&self, i: int) -> u64 {
        match self {
            ColumnData::Strings(_) => 0,
            ColumnData::Numbers(v) => v@[i],
        }
    }

    /// The value that row `i` projects to.
    pub open spec fn value_at(&self, i: int) -> Value {
        match self {
            ColumnData::Strings(v) => if 0 <= i < v@.len() {
                Value::Text(v@[i])
            } else {
                Value::Null
            },
            ColumnData::Numbers(v) => if 0 <= i < v@.len() && !is_nan_bits(v@[i]) {
                Value::Number(v@[i])
            } else {
                Value::Null
            },
        }
    }

    /// Same kind, same length, and the same cells except at row `i`.
    pub open spec fn same_except(&self, other: &ColumnData, i: int) -> bool {
        match (self, other) {
            (ColumnData::Strings(a), ColumnData::Strings(b)) => a@.len() == b@.len() && forall|
                k: int,
            | 0 <= k < a@.len() && k != i ==> a@[k] == b@[k],
            (ColumnData::Numbers(a), ColumnData::Numbers(b)) => a@.len() == b@.len() && forall|
                k: int,
            | 0 <= k < a@.len() && k != i ==> a@[k] == b@[k],
            _ => false,
        }
    }

    pub fn len(&self) -> (r: usize)
        ensures
            r == self.spec_len(),
    {
        match self {
            ColumnData::Strings(v) => v.len(),
            ColumnData::Numbers(v) => v.len(),
        }
    }

    /// Appends the missing value of the column's kind.
    pub fn push_null(&mut self)
        ensures
            final(self).push_of(*old(self), Value::Null),
    {
        match self {
            ColumnData::Strings(v) => {
                v.push(String::new());
                assert(v@.subrange(0, v@.len() - 1) =~= old(self)->Strings_0@);
            },
            ColumnData::Numbers(v) => v.push(NULL_NUMBER),
        }
    }

    /// `self` is `before` with one cell appended that stores `val`.
    pub open spec fn push_of(&self, before: ColumnData, val: Value) -> bool {
        match (before, self) {
            (ColumnData::Strings(a), ColumnData::Strings(b)) => b@.len() == a@.len() + 1
                && b@.subrange(0, a@.len() as int) == a@ && b@.last()@ == text_of_value(val),
            (ColumnData::Numbers(a), ColumnData::Numbers(b)) => b@ == a@.push(
                number_of_value(val),
            ),
            _ => false,
        }
    }

    /// Appends the cell that stores `val`.
    pub fn push_value(&mut self, val: &Value)
        ensures
            final(self).push_of(*old(self), *val),
    {
        match self {
            ColumnData::Strings(v) => {
                let s = match val {
                    Value::Text(s) => s.clone(),
                    _ => String::new(),
                };
                v.push(s);
                assert(v@.subrange(0, v@.len() - 1) =~= old(self)->Strings_0@);
            },
            ColumnData::Numbers(v) => {
                let b = match val {
                    Value::Number(b) => *b,
                    _ => NULL_NUMBER,
                };
                v.push(b);
            },
        }
    }

    /// The text at row `idx` of a text column.
    pub fn get_string(&self, idx: usize) -> (r: Option<&String>)
        ensures
            r is Some <==> (self is Strings && idx < self.spec_len()),
            r is Some ==> r->Some_0@ == self.text_at(idx as int),
    {
        match self {
            ColumnData::Strings(v) => if idx < v.len() {
                Some(&v[idx])
            } else {
                None
            },
            ColumnData::Numbers(_) => None,
        }
    }

    /// The number at row `idx` of a number column, unless it is missing.
    pub fn get_number(&self, idx: usize) -> (r: Option<u64>)
        ensures
            r is Some <==> (self is Numbers && idx < self.spec_len() && !is_nan_bits(
                self.number_at(idx as int),
            )),
            r is Some ==> r->Some_0 == self.number_at(idx as int),
    {
        match self {
            ColumnData::Numbers(v) => if idx < v.len() && !is_nan(v[idx]) {
                Some(v[idx])
            } else {
                None
            },
            ColumnData::Strings(_) => None,
        }
    }

    /// Writes `val` at row `idx` of a text column; anything else is left alone.
    pub fn set_string(&mut self, idx: usize, val: String)
        ensures
            final(self).same_except(old(self), idx as int),
            (*old(self) is Strings && idx < old(self).spec_len()) ==> final(self).text_at(idx as int)
                == val@,
            !(*old(self) is Strings && idx < old(self).spec_len()) ==> *final(self) == *old(self),
    {
        if let ColumnData::Strings(v) = self {
            if idx < v.len() {
                v.set(idx, val);
            }
        }
    }

    /// Writes `val` at row `idx` of a number column; anything else is left alone.
    pub fn set_number(&mut self, idx: usize, val: u64)
        ensures
            final(self).same_except(old(self), idx as int),
            (*old(self) is Numbers && idx < old(self).spec_len()) ==> final(self).number_at(
                idx as int,
            ) == val,
            !(*old(self) is Numbers && idx < old(self).spec_len()) ==> *final(self) == *old(self),
    {
        if let ColumnData::Numbers(v) = self {
            if idx < v.len() {
                v.set(idx, val);
            }
        }
    }

    /// Writes the cell that stores `val` at row `idx`, which must exist.
    pub fn set_value(&mut self, idx: usize, val: &Value)
        requires
            idx < old(self).spec_len(),
        ensures
            final(self).same_except(old(self), idx as int),
            *final(self) is Strings ==> final(self).text_at(idx as int) == text_of_value(*val),
            *final(self) is Numbers ==> final(self).number_at(idx as int) == number_of_value(*val),
    {
        let is_text = match self {
            ColumnData::Strings(_) => true,
            ColumnData::Numbers(_) => false,
        };
        if is_text {
            let s = match val {
                Value::Text(s) => s.clone(),
                _ => String::new(),
            };
            self.set_string(idx, s);
        } else {
            let b = match val {
                Value::Number(b) => *b,
                _ => NULL_NUMBER,
            };
            self.set_number(idx, b);
        }
    }

    /// The value that row `idx` projects to: the text of a text cell, the
    /// number of a number cell, `Null` for a missing number or a row out of range.
    pub fn to_value(&self, idx: usize) -> (r: Value)
        ensures
            r == self.value_at(idx as int),
    {
        match self {
            ColumnData::Strings(v) => if idx < v.len() {
                Value::Text(v[idx].clone())
            } else {
                Value::Null
            },
            ColumnData::Numbers(v) => if idx < v.len() && !is_nan(v[idx]) {
                Value::Number(v[idx])
            } else {
                Value::Null
            },
        }
    }
}

} // verus!
