//! Names of the files written for each transmitter.
use vstd::prelude::*;
use vstd::string::*;

verus! {

/// The files written for each transmitter.
#[derive(Clone, Copy, Debug, PartialEq, Eq, Structural)]
pub enum OutputKind {
    Data,
    Times,
    Angles,
    Png,
}

impl OutputKind {
    pub open spec fn extension_spec(self) -> Seq<char> {
        match self {
            OutputKind::Data => seq!['d', 'a', 't', 'a'],
            OutputKind::Times => seq!['t', 'i', 'm', 'e', 's'],
            OutputKind::Angles => seq!['a', 'n', 'g', 'l', 'e', 's'],
            OutputKind::Png => seq!['p', 'n', 'g'],
        }
    }

    /// The file extension, without the dot.
    pub fn extension(&self) -> (r: &'static str)
        ensures
            r@ == self.extension_spec(),
    {
        match self {
            OutputKind::Data => {
                proof {
                    reveal_strlit("data");
                }
                "data"
            },
            OutputKind::Times => {
                proof {
                    reveal_strlit("times");
                }
                "times"
            },
            OutputKind::Angles => {
                proof {
                    reveal_strlit("angles");
                }
                "angles"
            },
            OutputKind::Png => {
                proof {
                    reveal_strlit("png");
                }
                "png"
            },
        }
    }
}

pub open spec fn digit_char(d: int) -> char {
    seq!['0', '1', '2', '3', '4', '5', '6', '7', '8', '9'][d]
}

/// Base-10 digits of `n`, most significant first.
pub open spec fn digits(n: nat) -> Seq<char>
    decreases n,
{
    if n < 10 {
        seq![digit_char(n as int)]
    } else {
        digits(n / 10).push(digit_char((n % 10) as int))
    }
}

/// `n` written in base 10, with a leading `-` when negative.
pub open spec fn decimal(n: int) -> Seq<char> {
    if n < 0 {
        seq!['-'] + digits((-n) as nat)
    } else {
        digits(n as nat)
    }
}

/// Relies on `ToString` for `i64`, through its `Display`: the value in
/// base 10, with a leading `-` when negative.
#[verifier::external_body]
fn int_text(n: i64) -> (r: String)
    ensures
        r@ == decimal(n as int),
{
    n.to_string()
}

/// Name of a transmitter's output file: `{base}_{id}_{frequency}.{ext}`,
/// with the id taken as a 32-bit integer.
pub fn output_name(base: &str, id: i64, frequency: i64, kind: OutputKind) -> (r: String)
    ensures
        r@ == base@ + seq!['_'] + decimal((id as i32) as int) + seq!['_'] + decimal(
            frequency as int,
        ) + seq!['.'] + kind.extension_spec(),
{
    proof {
        reveal_strlit("_");
        reveal_strlit(".");
    }
    let id_text = int_text((id as i32) as i64);
    let freq_text = int_text(frequency);
    let mut name = base.to_owned();
    name.append("_");
    name.append(id_text.as_str());
    name.append("_");
    name.append(freq_text.as_str());
    name.append(".");
    name.append(kind.extension());
    name
}

} // verus!
