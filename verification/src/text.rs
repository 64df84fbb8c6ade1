use vstd::prelude::*;
use vstd::string::StringExecFns;

verus! {

/// What `String::from_utf8_lossy` makes of a byte sequence: its UTF-8 decoding,
/// with each invalid sequence replaced by U+FFFD.
pub uninterp spec fn utf8_lossy(bytes: Seq<u8>) -> Seq<char>;

/// The decimal digits of `n`, most significant first, without leading zeros.
pub open spec fn decimal(n: nat) -> Seq<char>
    decreases n,
{
    if n < 10 {
        seq![(48 + n) as char]
    } else {
        decimal(n / 10).push((48 + n % 10) as char)
    }
}

/// `String::from_utf8_lossy`, turned into an owned `String`. The result is named
/// by `utf8_lossy`; for valid UTF-8 it is the decoding of the bytes. What the
/// replacement of invalid sequences yields is left to the name.
#[verifier::external_body]
pub fn string_from_utf8_lossy(bytes: &[u8]) -> (s: String)
    ensures
        s@ == utf8_lossy(bytes@),
        vstd::utf8::valid_utf8(bytes@) ==> s@ == vstd::utf8::decode_utf8(bytes@),
{
    String::from_utf8_lossy(bytes).into_owned()
}

/// The decimal digit `d` as a one-character string.
fn digit_str(d: u8) -> (r: &'static str)
    requires
        d < 10,
    ensures
        r@ == seq![(48 + d) as char],
{
    match d {
        0 => {
            proof {
                reveal_strlit("0");
            }
            "0"
        },
        1 => {
            proof {
                reveal_strlit("1");
            }
            "1"
        },
        2 => {
            proof {
                reveal_strlit("2");
            }
            "2"
        },
        3 => {
            proof {
                reveal_strlit("3");
            }
            "3"
        },
        4 => {
            proof {
                reveal_strlit("4");
            }
            "4"
        },
        5 => {
            proof {
                reveal_strlit("5");
            }
            "5"
        },
        6 => {
            proof {
                reveal_strlit("6");
            }
            "6"
        },
        7 => {
            proof {
                reveal_strlit("7");
            }
            "7"
        },
        8 => {
            proof {
                reveal_strlit("8");
            }
            "8"
        },
        _ => {
            proof {
                reveal_strlit("9");
            }
            "9"
        },
    }
}

/// The error text for a packet type that is not decoded: the prefix, then the
/// type's decimal digits.
pub fn unsupported_type_message(t: u8) -> (s: String)
    ensures
        s@ == "Unsupported packet type: "@ + decimal(t as nat),
{
    let mut s = String::from_str("Unsupported packet type: ");
    let ghost prefix = s@;
    if t >= 100 {
        s.append(digit_str(t / 100));
    }
    if t >= 10 {
        s.append(digit_str((t / 10) % 10));
    }
    s.append(digit_str(t % 10));
    proof {
        let n = t as nat;
        if t >= 100 {
            assert(decimal(n / 100) == seq![(48 + n / 100) as char]);
            assert(decimal(n / 10) == decimal(n / 100).push((48 + (n / 10) % 10) as char));
        } else if t >= 10 {
            assert(decimal(n / 10) == seq![(48 + n / 10) as char]);
        }
        assert(s@ =~= prefix + decimal(n));
    }
    s
}

} // verus!
