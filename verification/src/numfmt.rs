//! Decimal rendering of counters and the fixed-width line-number field.
//!
//! The cat clone prints each line number right-aligned in a field of width
//! six, followed by a tab. The spec functions here give the exact character
//! sequence of that field, and the executable functions produce it.

use vstd::prelude::*;
use vstd::string::*;

verus! {

/// The decimal digit character for a value below ten.
pub open spec fn spec_digit(d: nat) -> char {
    if d == 0 {
        '0'
    } else if d == 1 {
        '1'
    } else if d == 2 {
        '2'
    } else if d == 3 {
        '3'
    } else if d == 4 {
        '4'
    } else if d == 5 {
        '5'
    } else if d == 6 {
        '6'
    } else if d == 7 {
        '7'
    } else if d == 8 {
        '8'
    } else {
        '9'
    }
}

/// The decimal digits of `n`, most significant first, with no leading zeros
/// (a single `'0'` for zero).
pub open spec fn dec_chars(n: nat) -> Seq<char>
    decreases n,
{
    if n < 10 {
        seq![spec_digit(n)]
    } else {
        dec_chars(n / 10).push(spec_digit(n % 10))
    }
}

/// `n` space characters.
pub open spec fn spaces(n: nat) -> Seq<char>
    decreases n,
{
    if n == 0 {
        Seq::empty()
    } else {
        spaces((n - 1) as nat).push(' ')
    }
}

/// The decimal digits of `n`, right-aligned in a field of width six by
/// padding with spaces on the left; wider numbers are not truncated.
pub open spec fn field6(n: nat) -> Seq<char> {
    let d = dec_chars(n);
    if d.len() >= 6 {
        d
    } else {
        spaces((6 - d.len()) as nat) + d
    }
}

/// A numbered output line: the width-six number field, a tab, the content.
pub open spec fn numbered(n: nat, content: Seq<char>) -> Seq<char> {
    field6(n) + seq!['\t'] + content
}

fn digit_str(d: usize) -> (r: &'static str)
    requires
        d < 10,
    ensures
        r@ == seq![spec_digit(d as nat)],
{
    if d == 0 {
        proof {
            reveal_strlit("0");
        }
        let r = "0";
        assert(r@ =~= seq![spec_digit(0)]);
        r
    } else if d == 1 {
        proof {
            reveal_strlit("1");
        }
        let r = "1";
        assert(r@ =~= seq![spec_digit(1)]);
        r
    } else if d == 2 {
        proof {
            reveal_strlit("2");
        }
        let r = "2";
        assert(r@ =~= seq![spec_digit(2)]);
        r
    } else if d == 3 {
        proof {
            reveal_strlit("3");
        }
        let r = "3";
        assert(r@ =~= seq![spec_digit(3)]);
        r
    } else if d == 4 {
        proof {
            reveal_strlit("4");
        }
        let r = "4";
        assert(r@ =~= seq![spec_digit(4)]);
        r
    } else if d == 5 {
        proof {
            reveal_strlit("5");
        }
        let r = "5";
        assert(r@ =~= seq![spec_digit(5)]);
        r
    } else if d == 6 {
        proof {
            reveal_strlit("6");
        }
        let r = "6";
        assert(r@ =~= seq![spec_digit(6)]);
        r
    } else if d == 7 {
        proof {
            reveal_strlit("7");
        }
        let r = "7";
        assert(r@ =~= seq![spec_digit(7)]);
        r
    } else if d == 8 {
        proof {
            reveal_strlit("8");
        }
        let r = "8";
        assert(r@ =~= seq![spec_digit(8)]);
        r
    } else {
        proof {
            reveal_strlit("9");
        }
        let r = "9";
        assert(r@ =~= seq![spec_digit(9)]);
        r
    }
}

/// The decimal representation of `n`.
pub fn dec_string(n: usize) -> (r: String)
    ensures
        r@ == dec_chars(n as nat),
    decreases n,
{
    if n < 10 {
        String::from_str(digit_str(n))
    } else {
        let mut r = dec_string(n / 10);
        r.append(digit_str(n % 10));
        r
    }
}

/// The width-six number field of `n`, as printed before a numbered line.
pub fn number_field(n: usize) -> (r: String)
    ensures
        r@ == field6(n as nat),
{
    let d = dec_string(n);
    let len = d.as_str().unicode_len();
    let mut r = String::new();
    if len < 6 {
        let pad = 6 - len;
        let mut i: usize = 0;
        while i < pad
            invariant
                i <= pad,
                r@ == spaces(i as nat),
            decreases pad - i,
        {
            proof {
                reveal_strlit(" ");
            }
            r.append(" ");
            proof {
                assert(r@ =~= spaces((i + 1) as nat));
            }
            i += 1;
        }
    }
    let r = r.concat(d.as_str());
    r
}

/// A complete numbered line: width-six number, tab, content.
pub fn format_numbered(n: usize, content: &str) -> (r: String)
    ensures
        r@ == numbered(n as nat, content@),
{
    let mut r = number_field(n);
    proof {
        reveal_strlit("\t");
    }
    r.append("\t");
    proof {
        assert(r@ =~= field6(n as nat) + seq!['\t']);
    }
    r.append(content);
    r
}

} // verus!
