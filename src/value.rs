use vstd::prelude::*;
use crate::text::{decimal, decimal_spec, push_decimal};

verus! {

/// The tagged word of `true`.
pub const TRUE_VALUE: i64 = 3;

/// The tagged word of `false`.
pub const FALSE_VALUE: i64 = 1;

/// A word with low bit 0 is a number.
pub open spec fn is_number(v: i64) -> bool {
    v & 1 == 0
}

/// A word with low bit 1 is a boolean.
pub open spec fn is_boolean(v: i64) -> bool {
    v & 1 == 1
}

/// The integer that a tagged number carries.
pub open spec fn untag(v: i64) -> i64 {
    v >> 1
}

/// How the interactive session shows a result: the two boolean words by
/// name, any other word as the number it carries.
pub open spec fn value_text(v: i64) -> Seq<char> {
    if v == TRUE_VALUE {
        "true"@
    } else if v == FALSE_VALUE {
        "false"@
    } else {
        decimal_spec(untag(v) as int)
    }
}

pub fn format_viva_value(result: i64) -> (r: String)
    ensures
        r@ == value_text(result),
{
    if result == TRUE_VALUE {
        String::from_str("true")
    } else if result == FALSE_VALUE {
        String::from_str("false")
    } else {
        decimal(result >> 1)
    }
}

/// The line that the print hook writes for a word.
pub open spec fn print_text(v: i64) -> Seq<char> {
    if v == TRUE_VALUE {
        "true"@
    } else if v == FALSE_VALUE {
        "false"@
    } else if v % 2 == 0 {
        decimal_spec(untag(v) as int)
    } else {
        "Unknown value: "@ + decimal_spec(v as int)
    }
}

/// The text that the print hook writes for `val`, without the newline.
pub fn print_line(val: i64) -> (r: String)
    ensures
        r@ == print_text(val),
{
    if val == TRUE_VALUE {
        String::from_str("true")
    } else if val == FALSE_VALUE {
        String::from_str("false")
    } else if val % 2 == 0 {
        decimal(val >> 1)
    } else {
        let mut s = String::from_str("Unknown value: ");
        push_decimal(&mut s, val);
        s
    }
}

/// The message of a runtime error code.
pub open spec fn error_text(code: i8) -> Seq<char> {
    if code == 1 {
        "Runtime error: overflow"@
    } else if code == 2 {
        "Runtime error: invalid argument"@
    } else {
        "snek_error called with code = "@ + decimal_spec(code as int)
    }
}

/// The exit status of a runtime error code; an unknown code does not end
/// the process.
pub open spec fn error_status(code: i8) -> Option<i32> {
    if code == 1 {
        Some(1)
    } else if code == 2 {
        Some(2)
    } else {
        None
    }
}

/// What the error hook does for `code`: the line it writes to the error
/// channel, and the status it exits with, if any.
pub fn error_report(code: i8) -> (r: (String, Option<i32>))
    ensures
        r.0@ == error_text(code),
        r.1 == error_status(code),
{
    if code == 1 {
        (String::from_str("Runtime error: overflow"), Some(1))
    } else if code == 2 {
        (String::from_str("Runtime error: invalid argument"), Some(2))
    } else {
        let mut s = String::from_str("snek_error called with code = ");
        push_decimal(&mut s, code as i64);
        (s, None)
    }
}

/// A number that fits in 63 bits survives tagging: shifting its tagged
/// word right by one gives it back, and the tag bit is 0.
pub proof fn lemma_tag_untag(n: i64)
    requires
        -0x4000_0000_0000_0000 <= n <= 0x3fff_ffff_ffff_ffff,
    ensures
        untag((2 * n) as i64) == n,
        is_number((2 * n) as i64),
{
    let t: i64 = (2 * n) as i64;
    assert(t == n + n);
    assert(-0x4000_0000_0000_0000 <= n <= 0x3fff_ffff_ffff_ffff ==> ((n + n) as i64) >> 1 == n) by (bit_vector);
    assert(-0x4000_0000_0000_0000 <= n <= 0x3fff_ffff_ffff_ffff ==> ((n + n) as i64) & 1 == 0) by (bit_vector);
}

/// The two boolean words carry tag 1, and numbers never look like them.
pub proof fn lemma_boolean_words()
    ensures
        is_boolean(TRUE_VALUE),
        is_boolean(FALSE_VALUE),
        !is_number(TRUE_VALUE),
        !is_number(FALSE_VALUE),
{
    assert(3i64 & 1 == 1) by (bit_vector);
    assert(1i64 & 1 == 1) by (bit_vector);
}

} // verus!
