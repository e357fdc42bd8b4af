//! The scalar values of a row, their mathematical value and their text.

use vstd::prelude::*;

verus! {

/// The mathematical value that a `DataType` stands for.
pub enum Value {
    Null,
    Int(i32),
    Text(Seq<char>),
}

/// One scalar of a row: absent, an integer, or a text.
#[derive(Debug, Eq, Hash)]
pub enum DataType {
    Null,
    Int(i32),
    Text(String),
}

impl View for DataType {
    type V = Value;

    open spec fn view(&self) -> Value {
        match self {
            DataType::Null => Value::Null,
            DataType::Int(n) => Value::Int(*n),
            DataType::Text(s) => Value::Text(s@),
        }
    }
}

impl DeepView for DataType {
    type V = Value;

    open spec fn deep_view(&self) -> Value {
        self@
    }
}

impl Clone for DataType {
    fn clone(&self) -> (r: Self)
        ensures
            r == *self,
    {
        match self {
            DataType::Null => DataType::Null,
            DataType::Int(n) => DataType::Int(*n),
            DataType::Text(s) => DataType::Text(s.clone()),
        }
    }
}

impl PartialEq for DataType {
    fn eq(&self, other: &Self) -> (r: bool) {
        match (self, other) {
            (DataType::Null, DataType::Null) => true,
            (DataType::Int(a), DataType::Int(b)) => *a == *b,
            (DataType::Text(a), DataType::Text(b)) => *a == *b,
            _ => false,
        }
    }
}

impl vstd::std_specs::cmp::PartialEqSpecImpl for DataType {
    open spec fn obeys_eq_spec() -> bool {
        true
    }

    open spec fn eq_spec(&self, other: &Self) -> bool {
        self@ == other@
    }
}

/// The character of one decimal digit.
pub open spec fn digit(d: int) -> char {
    if d == 0 {
        '0'
    } else if d == 1 {
        '1'
    } else if d == 2 {
        '2'
    } else if d == 3 {
        '3'
    } else if d == 4 {
        '4'
    } else if d == 5 {
        '5'
    } else if d == 6 {
        '6'
    } else if d == 7 {
        '7'
    } else if d == 8 {
        '8'
    } else {
        '9'
    }
}

/// The decimal digits of a natural number, without leading zeros.
pub open spec fn digits(n: nat) -> Seq<char>
    decreases n,
{
    if n < 10 {
        seq![digit(n as int)]
    } else {
        digits(n / 10).push(digit((n % 10) as int))
    }
}

/// An integer in decimal, with a minus sign where it is negative.
pub open spec fn decimal(n: int) -> Seq<char> {
    if n < 0 {
        seq!['-'] + digits((-n) as nat)
    } else {
        digits(n as nat)
    }
}

/// The text that stands for a value: a star for the absent value, the
/// decimal number for an integer, the text itself for a text.
pub open spec fn value_text(v: Value) -> Seq<char> {
    match v {
        Value::Null => seq!['*'],
        Value::Int(n) => decimal(n as int),
        Value::Text(s) => s,
    }
}

/// The text of one decimal digit.
fn digit_text(d: i64) -> (s: &'static str)
    requires
        0 <= d < 10,
    ensures
        s@ == seq![digit(d as int)],
{
    proof {
        reveal_strlit("0");
        reveal_strlit("1");
        reveal_strlit("2");
        reveal_strlit("3");
        reveal_strlit("4");
        reveal_strlit("5");
        reveal_strlit("6");
        reveal_strlit("7");
        reveal_strlit("8");
        reveal_strlit("9");
    }
    let s = if d == 0 {
        "0"
    } else if d == 1 {
        "1"
    } else if d == 2 {
        "2"
    } else if d == 3 {
        "3"
    } else if d == 4 {
        "4"
    } else if d == 5 {
        "5"
    } else if d == 6 {
        "6"
    } else if d == 7 {
        "7"
    } else if d == 8 {
        "8"
    } else {
        "9"
    };
    assert(s@ =~= seq![digit(d as int)]);
    s
}

/// `head` followed by `tail`.
fn joined(head: &str, tail: &String) -> (s: String)
    ensures
        s@ == head@ + tail@,
{
    let mut s = String::from_str(head);
    s.append(tail.as_str());
    s
}

/// An integer in decimal.
pub fn decimal_text(n: i32) -> (s: String)
    ensures
        s@ == decimal(n as int),
{
    let negative = n < 0;
    let whole: i64 = if negative {
        -(n as i64)
    } else {
        n as i64
    };
    let mut m: i64 = whole / 10;
    let mut tail = String::from_str(digit_text(whole % 10));
    while m > 0
        invariant
            0 <= m <= whole,
            digits(whole as nat) == (if m > 0 {
                digits(m as nat) + tail@
            } else {
                tail@
            }),
        decreases m,
    {
        let ghost held = tail@;
        tail = joined(digit_text(m % 10), &tail);
        proof {
            let d = seq![digit((m % 10) as int)];
            assert(tail@ == d + held);
            if m >= 10 {
                assert(digits(m as nat) == digits((m / 10) as nat).push(digit((m % 10) as int)));
                assert(digits((m / 10) as nat).push(digit((m % 10) as int)) + held =~= digits(
                    (m / 10) as nat,
                ) + (d + held));
            } else {
                assert(digits(m as nat) + held =~= d + held);
            }
        }
        m = m / 10;
    }
    if negative {
        proof {
            reveal_strlit("-");
            assert("-"@ =~= seq!['-']);
        }
        joined("-", &tail)
    } else {
        tail
    }
}

impl DataType {
    /// The text that stands for the value.
    pub fn to_text(&self) -> (s: String)
        ensures
            s@ == value_text(self@),
    {
        match self {
            DataType::Null => {
                proof {
                    reveal_strlit("*");
                    assert("*"@ =~= seq!['*']);
                }
                String::from_str("*")
            },
            DataType::Text(n) => n.clone(),
            DataType::Int(n) => decimal_text(*n),
        }
    }
}

} // verus!
