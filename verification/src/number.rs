//! The JSON number grammar.
//!
//! ```text
//! number   = [ "-" ] integer [ fraction ] [ exponent ]
//! integer  = "0" | digit1-9 { digit }
//! fraction = "." digit { digit }
//! exponent = ( "e" | "E" ) [ "+" | "-" ] digit { digit }
//! ```

use crate::chars::{run_end, scan_run, CharClass};
use vstd::prelude::*;

verus! {

/// Where the integer part of `s` starts: after the optional minus sign.
pub open spec fn integer_start(s: Seq<char>) -> int {
    if s.len() > 0 && s[0] == '-' {
        1
    } else {
        0
    }
}

/// Where the integer part of `s` ends.
pub open spec fn integer_end(s: Seq<char>) -> int {
    run_end(s, integer_start(s), CharClass::Digit)
}

/// Whether a decimal point follows the integer part.
pub open spec fn has_fraction(s: Seq<char>) -> bool {
    integer_end(s) < s.len() && s[integer_end(s)] == '.'
}

/// Where the fraction ends; the end of the integer part if there is none.
pub open spec fn fraction_end(s: Seq<char>) -> int {
    if has_fraction(s) {
        run_end(s, integer_end(s) + 1, CharClass::Digit)
    } else {
        integer_end(s)
    }
}

/// Whether an exponent marker follows the fraction.
pub open spec fn has_exponent(s: Seq<char>) -> bool {
    fraction_end(s) < s.len() && (s[fraction_end(s)] == 'e' || s[fraction_end(s)] == 'E')
}

/// Where the digits of the exponent start: after the marker and its optional
/// sign.
pub open spec fn exponent_digits_start(s: Seq<char>) -> int {
    let sign = fraction_end(s) + 1;
    if sign < s.len() && (s[sign] == '+' || s[sign] == '-') {
        sign + 1
    } else {
        sign
    }
}

/// Where the exponent ends; the end of the fraction if there is none.
pub open spec fn exponent_end(s: Seq<char>) -> int {
    if has_exponent(s) {
        run_end(s, exponent_digits_start(s), CharClass::Digit)
    } else {
        fraction_end(s)
    }
}

/// Whether `s` is a JSON number: an optional minus sign, an integer part of
/// at least one digit and without a superfluous leading zero, an optional
/// fraction of at least one digit, an optional exponent of at least one
/// digit, and nothing after that.
pub open spec fn is_json_number(s: Seq<char>) -> bool {
    &&& integer_end(s) > integer_start(s)
    &&& s[integer_start(s)] == '0' ==> integer_end(s) == integer_start(s) + 1
    &&& has_fraction(s) ==> fraction_end(s) > integer_end(s) + 1
    &&& has_exponent(s) ==> exponent_end(s) > exponent_digits_start(s)
    &&& exponent_end(s) == s.len()
}

/// Decides whether `lexeme` is a JSON number.
pub fn check_number(lexeme: &Vec<char>) -> (ok: bool)
    ensures
        ok == is_json_number(lexeme@),
{
    let len = lexeme.len();
    let start: usize = if len > 0 && lexeme[0] == '-' {
        1
    } else {
        0
    };
    let int_end = scan_run(lexeme, start, CharClass::Digit);
    if int_end == start {
        return false;
    }
    if lexeme[start] == '0' && int_end != start + 1 {
        return false;
    }
    let mut end: usize = int_end;
    if end < len && lexeme[end] == '.' {
        let frac_end = scan_run(lexeme, end + 1, CharClass::Digit);
        if frac_end == end + 1 {
            return false;
        }
        end = frac_end;
    }
    if end < len && (lexeme[end] == 'e' || lexeme[end] == 'E') {
        let mut digits: usize = end + 1;
        if digits < len && (lexeme[digits] == '+' || lexeme[digits] == '-') {
            digits = digits + 1;
        }
        let exp_end = scan_run(lexeme, digits, CharClass::Digit);
        if exp_end == digits {
            return false;
        }
        end = exp_end;
    }
    end == len
}

} // verus!
