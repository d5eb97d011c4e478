//! The alphabet of the language: character classes, operator spellings,
//! builtin names and the precedence of binary operators.
use vstd::prelude::*;
use crate::text::chars_are;

verus! {

/// A decimal digit.
pub open spec fn is_decimal_digit(c: char) -> bool {
    '0' <= c <= '9'
}

/// Blanks between tokens: space and tab.
pub open spec fn is_ignorable_whitespace(c: char) -> bool {
    c == ' ' || c == '\t'
}

/// A character that can start a numeral: a decimal digit or a fractional
/// separator.
pub open spec fn is_numeral_initial(c: char) -> bool {
    is_decimal_digit(c) || c == '.' || c == ','
}

/// A character that can continue a numeral: digits of every radix, the radix
/// letters, the fractional separators and the digit-group separator.
pub open spec fn is_numeral_internal(c: char) -> bool {
    ||| is_numeral_initial(c)
    ||| 'a' <= c <= 'f'
    ||| 'A' <= c <= 'F'
    ||| c == 'o'
    ||| c == 'x'
    ||| c == 'O'
    ||| c == 'X'
    ||| c == '_'
}

/// A character of an operator spelling.
pub open spec fn is_operator_char(c: char) -> bool {
    ||| c == '+'
    ||| c == '-'
    ||| c == '!'
    ||| c == '^'
    ||| c == '*'
    ||| c == '/'
    ||| c == '%'
    ||| c == '¬'
    ||| c == '<'
    ||| c == '>'
    ||| c == '='
    ||| c == ':'
    ||| c == '&'
    ||| c == '|'
    ||| c == '?'
    ||| c == '~'
}

/// A character of an identifier: a Latin letter or a backslash.
pub open spec fn is_identifier_char(c: char) -> bool {
    ||| 'a' <= c <= 'z'
    ||| 'A' <= c <= 'Z'
    ||| c == '\\'
}

pub fn ignorable_whitespace(c: char) -> (b: bool)
    ensures
        b == is_ignorable_whitespace(c),
{
    c == ' ' || c == '\t'
}

pub fn numeral_initial(c: char) -> (b: bool)
    ensures
        b == is_numeral_initial(c),
{
    ('0' <= c && c <= '9') || c == '.' || c == ','
}

pub fn numeral_internal(c: char) -> (b: bool)
    ensures
        b == is_numeral_internal(c),
{
    numeral_initial(c) || ('a' <= c && c <= 'f') || ('A' <= c && c <= 'F') || c == 'o' || c == 'x'
        || c == 'O' || c == 'X' || c == '_'
}

pub fn operator_char(c: char) -> (b: bool)
    ensures
        b == is_operator_char(c),
{
    c == '+' || c == '-' || c == '!' || c == '^' || c == '*' || c == '/' || c == '%' || c == '¬'
        || c == '<' || c == '>' || c == '=' || c == ':' || c == '&' || c == '|' || c == '?' || c
        == '~'
}

pub fn identifier_char(c: char) -> (b: bool)
    ensures
        b == is_identifier_char(c),
{
    ('a' <= c && c <= 'z') || ('A' <= c && c <= 'Z') || c == '\\'
}

/// The spellings whose arity depends on their neighbours.
pub open spec fn is_ambiguous_operator(s: Seq<char>) -> bool {
    ||| s == "+"@
    ||| s == "-"@
}

pub fn ambiguous_operator(content: &Vec<char>) -> (b: bool)
    ensures
        b == is_ambiguous_operator(content@),
{
    chars_are(content, "+")
        || chars_are(content, "-")
}

/// The spellings of the unary operators.
pub open spec fn is_unary_operator(s: Seq<char>) -> bool {
    ||| s == "+"@
    ||| s == "-"@
    ||| s == "!"@
    ||| s == "¬"@
    ||| s == "~"@
}

pub fn unary_operator(content: &Vec<char>) -> (b: bool)
    ensures
        b == is_unary_operator(content@),
{
    chars_are(content, "+")
        || chars_are(content, "-")
        || chars_are(content, "!")
        || chars_are(content, "¬")
        || chars_are(content, "~")
}

/// The spellings of the binary operators.
pub open spec fn is_binary_operator(s: Seq<char>) -> bool {
    ||| s == "^"@
    ||| s == "*"@
    ||| s == "/"@
    ||| s == "%"@
    ||| s == "+"@
    ||| s == "-"@
    ||| s == "<=>"@
    ||| s == "<="@
    ||| s == ">="@
    ||| s == ":="@
    ||| s == "<<<"@
    ||| s == ">>>"@
    ||| s == "<<"@
    ||| s == ">>"@
    ||| s == "<"@
    ||| s == ">"@
    ||| s == "!="@
    ||| s == "=="@
    ||| s == "&&"@
    ||| s == "||"@
    ||| s == "??"@
    ||| s == "!?"@
    ||| s == "&"@
    ||| s == "|"@
    ||| s == "^|"@
}

pub fn binary_operator(content: &Vec<char>) -> (b: bool)
    ensures
        b == is_binary_operator(content@),
{
    chars_are(content, "^")
        || chars_are(content, "*")
        || chars_are(content, "/")
        || chars_are(content, "%")
        || chars_are(content, "+")
        || chars_are(content, "-")
        || chars_are(content, "<=>")
        || chars_are(content, "<=")
        || chars_are(content, ">=")
        || chars_are(content, ":=")
        || chars_are(content, "<<<")
        || chars_are(content, ">>>")
        || chars_are(content, "<<")
        || chars_are(content, ">>")
        || chars_are(content, "<")
        || chars_are(content, ">")
        || chars_are(content, "!=")
        || chars_are(content, "==")
        || chars_are(content, "&&")
        || chars_are(content, "||")
        || chars_are(content, "??")
        || chars_are(content, "!?")
        || chars_are(content, "&")
        || chars_are(content, "|")
        || chars_are(content, "^|")
}

/// The names of the builtin functions of one argument.
pub open spec fn is_unary_function(s: Seq<char>) -> bool {
    ||| s == "abs"@
    ||| s == "not"@
    ||| s == "sin"@
    ||| s == "cos"@
    ||| s == "tan"@
    ||| s == "cot"@
    ||| s == "sec"@
    ||| s == "csc"@
    ||| s == "exp"@
    ||| s == "ln"@
    ||| s == "lg"@
    ||| s == "log"@
    ||| s == "sqrt"@
    ||| s == "cbrt"@
    ||| s == "mem"@
}

pub fn unary_function(content: &Vec<char>) -> (b: bool)
    ensures
        b == is_unary_function(content@),
{
    chars_are(content, "abs")
        || chars_are(content, "not")
        || chars_are(content, "sin")
        || chars_are(content, "cos")
        || chars_are(content, "tan")
        || chars_are(content, "cot")
        || chars_are(content, "sec")
        || chars_are(content, "csc")
        || chars_are(content, "exp")
        || chars_are(content, "ln")
        || chars_are(content, "lg")
        || chars_are(content, "log")
        || chars_are(content, "sqrt")
        || chars_are(content, "cbrt")
        || chars_are(content, "mem")
}

/// The names of the builtin functions of two arguments.
pub open spec fn is_binary_function(s: Seq<char>) -> bool {
    ||| s == "rt"@
    ||| s == "logb"@
    ||| s == "choose"@
}

pub fn binary_function(content: &Vec<char>) -> (b: bool)
    ensures
        b == is_binary_function(content@),
{
    chars_are(content, "rt")
        || chars_are(content, "logb")
        || chars_are(content, "choose")
}

/// The number of precedence tiers of the binary operators.
pub const TIER_COUNT: usize = 10;

/// Whether the binary operator spelled `s` belongs to precedence tier `tier`.
/// Tier 0 binds tightest.
pub open spec fn in_tier(tier: int, s: Seq<char>) -> bool {
    // exponentiation
    if tier == 0 {
        s == "^"@
    // multiplication, division, modulo
    } else if tier == 1 {
        s == "*"@ || s == "/"@ || s == "%"@
    // addition, subtraction
    } else if tier == 2 {
        s == "+"@ || s == "-"@
    // bit shifts
    } else if tier == 3 {
        s == "<<"@ || s == ">>"@ || s == "<<<"@ || s == ">>>"@
    // bitwise and
    } else if tier == 4 {
        s == "&"@
    // bitwise or
    } else if tier == 5 {
        s == "|"@
    // bitwise xor
    } else if tier == 6 {
        s == "^|"@
    // comparisons
    } else if tier == 7 {
        s == ">"@ || s == "<"@ || s == "<="@ || s == ">="@ || s == "!="@ || s == "=="@ || s == "<=>"@ || s == "??"@ || s == "!?"@
    // logical conjunction and disjunction
    } else if tier == 8 {
        s == "&&"@ || s == "||"@
    // assignment
    } else if tier == 9 {
        s == ":="@
    } else {
        false
    }
}

pub fn tier_contains(tier: usize, content: &Vec<char>) -> (b: bool)
    ensures
        b == in_tier(tier as int, content@),
{
    if tier == 0 {
        chars_are(content, "^")
    } else if tier == 1 {
        chars_are(content, "*") || chars_are(content, "/") || chars_are(content, "%")
    } else if tier == 2 {
        chars_are(content, "+") || chars_are(content, "-")
    } else if tier == 3 {
        chars_are(content, "<<") || chars_are(content, ">>") || chars_are(content, "<<<") || chars_are(content, ">>>")
    } else if tier == 4 {
        chars_are(content, "&")
    } else if tier == 5 {
        chars_are(content, "|")
    } else if tier == 6 {
        chars_are(content, "^|")
    } else if tier == 7 {
        chars_are(content, ">") || chars_are(content, "<") || chars_are(content, "<=") || chars_are(content, ">=") || chars_are(content, "!=") || chars_are(content, "==") || chars_are(content, "<=>") || chars_are(content, "??") || chars_are(content, "!?")
    } else if tier == 8 {
        chars_are(content, "&&") || chars_are(content, "||")
    } else if tier == 9 {
        chars_are(content, ":=")
    } else {
        false
    }
}

} // verus!
