use vstd::prelude::*;
use vstd::string::*;

verus! {

/// Failure of the sieve or the report: the symbol array and the label array
/// must pair up one to one.
#[derive(Debug, Clone, Copy, PartialEq, Eq, Structural)]
pub enum PathError {
    /// The lengths of the symbol array and of the label array, in that order.
    LengthMismatch(usize, usize),
}

/// The character of decimal digit `d`.
pub open spec fn digit_char(d: nat) -> char {
    if d == 0 {
        '0'
    } else if d == 1 {
        '1'
    } else if d == 2 {
        '2'
    } else if d == 3 {
        '3'
    } else if d == 4 {
        '4'
    } else if d == 5 {
        '5'
    } else if d == 6 {
        '6'
    } else if d == 7 {
        '7'
    } else if d == 8 {
        '8'
    } else {
        '9'
    }
}

/// The decimal digits of `n`, most significant first, without leading zeros.
pub open spec fn decimal(n: nat) -> Seq<char>
    decreases n,
{
    if n < 10 {
        seq![digit_char(n)]
    } else {
        decimal(n / 10) + seq![digit_char(n % 10)]
    }
}

/// The text that describes a length mismatch.
pub open spec fn mismatch_message(data_len: nat, labels_len: nat) -> Seq<char> {
    "Data array does not coincide with labels array: data.len() = "@ + decimal(data_len)
        + ", labels.len() = "@ + decimal(labels_len)
}

fn digit_str(d: usize) -> (r: &'static str)
    requires
        d < 10,
    ensures
        r@ == seq![digit_char(d as nat)],
{
    proof {
        reveal_strlit("0");
        reveal_strlit("1");
        reveal_strlit("2");
        reveal_strlit("3");
        reveal_strlit("4");
        reveal_strlit("5");
        reveal_strlit("6");
        reveal_strlit("7");
        reveal_strlit("8");
        reveal_strlit("9");
    }
    let r = if d == 0 {
        "0"
    } else if d == 1 {
        "1"
    } else if d == 2 {
        "2"
    } else if d == 3 {
        "3"
    } else if d == 4 {
        "4"
    } else if d == 5 {
        "5"
    } else if d == 6 {
        "6"
    } else if d == 7 {
        "7"
    } else if d == 8 {
        "8"
    } else {
        "9"
    };
    assert(r@ =~= seq![digit_char(d as nat)]);
    r
}

/// Renders `n` in decimal.
pub fn decimal_string(n: usize) -> (r: String)
    ensures
        r@ == decimal(n as nat),
    decreases n,
{
    if n < 10 {
        String::from_str(digit_str(n))
    } else {
        let mut s = decimal_string(n / 10);
        s.append(digit_str(n % 10));
        s
    }
}

impl PathError {
    /// A sentence that names both lengths.
    pub fn message(&self) -> (r: String)
        ensures
            match *self {
                PathError::LengthMismatch(d, l) => r@ == mismatch_message(d as nat, l as nat),
            },
    {
        match *self {
            PathError::LengthMismatch(d, l) => {
                let mut s = String::from_str(
                    "Data array does not coincide with labels array: data.len() = ",
                );
                s.append(decimal_string(d).as_str());
                s.append(", labels.len() = ");
                s.append(decimal_string(l).as_str());
                s
            },
        }
    }
}

} // verus!
