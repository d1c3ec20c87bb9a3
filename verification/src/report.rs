//! The lines `rustype check` prints: one per diagnostic, with its location,
//! and a closing summary.
use vstd::prelude::*;
use crate::ast::Diagnostic;
use crate::text::{append_literal, owned, push_char};

verus! {

/// The decimal digit `d` (below ten) as a character.
pub open spec fn digit(d: nat) -> char {
    if d == 0 {
        '0'
    } else if d == 1 {
        '1'
    } else if d == 2 {
        '2'
    } else if d == 3 {
        '3'
    } else if d == 4 {
        '4'
    } else if d == 5 {
        '5'
    } else if d == 6 {
        '6'
    } else if d == 7 {
        '7'
    } else if d == 8 {
        '8'
    } else {
        '9'
    }
}

/// `n` written in decimal, without leading zeros.
pub open spec fn decimal_text(n: nat) -> Seq<char>
    decreases n,
{
    if n < 10 {
        seq![digit(n)]
    } else {
        decimal_text(n / 10).push(digit(n % 10))
    }
}

/// The value of the decimal numeral `s`, reading each character `c` as the
/// digit `c - '0'`.
pub open spec fn numeral_value(s: Seq<char>) -> int
    decreases s.len(),
{
    if s.len() == 0 {
        0
    } else {
        numeral_value(s.drop_last()) * 10 + ((s.last() as u32) as int - ('0' as u32) as int)
    }
}

/// `decimal_text(n)` is the base-10 numeral of `n`: it is made of the
/// characters `'0'` to `'9'`, starts with `'0'` only when it is `"0"`, and
/// read back as a decimal number it gives `n`.
pub proof fn decimal_text_reads_back(n: nat)
    ensures
        decimal_text(n).len() > 0,
        forall|k: int|
            0 <= k < decimal_text(n).len() ==> '0' <= #[trigger] decimal_text(n)[k] <= '9',
        decimal_text(n)[0] == '0' ==> n == 0,
        numeral_value(decimal_text(n)) == n,
    decreases n,
{
    let t = decimal_text(n);
    if n < 10 {
        assert((digit(n) as u32) as int == ('0' as u32) as int + n);
        assert(t.drop_last() =~= Seq::<char>::empty());
        assert(numeral_value(t.drop_last()) == 0);
        assert(numeral_value(t) == numeral_value(t.drop_last()) * 10 + ((t.last() as u32) as int
            - ('0' as u32) as int));
    } else {
        decimal_text_reads_back(n / 10);
        let d = (n % 10) as nat;
        assert((digit(d) as u32) as int == ('0' as u32) as int + d);
        assert(t.drop_last() =~= decimal_text(n / 10));
        assert(t[0] == decimal_text(n / 10)[0]);
        assert(numeral_value(t) == numeral_value(t.drop_last()) * 10 + ((t.last() as u32) as int
            - ('0' as u32) as int));
        assert(n == (n / 10) * 10 + d);
    }
}

fn digit_char(d: usize) -> (c: char)
    requires
        d < 10,
    ensures
        c == digit(d as nat),
{
    if d == 0 {
        '0'
    } else if d == 1 {
        '1'
    } else if d == 2 {
        '2'
    } else if d == 3 {
        '3'
    } else if d == 4 {
        '4'
    } else if d == 5 {
        '5'
    } else if d == 6 {
        '6'
    } else if d == 7 {
        '7'
    } else if d == 8 {
        '8'
    } else {
        '9'
    }
}

/// `n` in decimal.
pub fn decimal(n: usize) -> (s: String)
    ensures
        s@ == decimal_text(n as nat),
    decreases n,
{
    if n < 10 {
        let mut s = owned("");
        proof {
            reveal_strlit("");
        }
        push_char(&mut s, digit_char(n));
        assert(s@ =~= seq![digit(n as nat)]);
        s
    } else {
        let mut s = decimal(n / 10);
        push_char(&mut s, digit_char(n % 10));
        s
    }
}

/// What is printed when a file has no diagnostics.
pub open spec fn success_text(path: Seq<char>, items: nat) -> Seq<char> {
    "checked "@ + path + ": "@ + decimal_text(items) + " top-level Rustype item(s)"@
}

/// The line printed for a diagnostic at `line` and `column` of the file `path`.
pub open spec fn diagnostic_text(
    path: Seq<char>,
    line: nat,
    column: nat,
    code: Seq<char>,
    message: Seq<char>,
) -> Seq<char> {
    path + ":"@ + decimal_text(line) + ":"@ + decimal_text(column) + ": error["@ + code + "]: "@
        + message
}

/// What is reported when a file has `count` diagnostics.
pub open spec fn failure_text(count: nat, path: Seq<char>) -> Seq<char> {
    decimal_text(count) + " error(s) found in "@ + path
}

/// The line printed when the file `path` has `items` items and no diagnostic.
pub fn success_line(path: &str, items: usize) -> (s: String)
    ensures
        s@ == success_text(path@, items as nat),
{
    let mut s = owned("checked ");
    s.append(path);
    append_literal(&mut s, ": ");
    let n = decimal(items);
    s.append(n.as_str());
    append_literal(&mut s, " top-level Rustype item(s)");
    s
}

/// The line printed for the diagnostic `d`, found at `line` and `column` of the file `path`.
pub fn diagnostic_line(path: &str, line: usize, column: usize, d: &Diagnostic) -> (s: String)
    ensures
        s@ == diagnostic_text(path@, line as nat, column as nat, d.code@, d.message@),
{
    let mut s = owned(path);
    append_literal(&mut s, ":");
    let l = decimal(line);
    s.append(l.as_str());
    append_literal(&mut s, ":");
    let c = decimal(column);
    s.append(c.as_str());
    append_literal(&mut s, ": error[");
    append_literal(&mut s, d.code);
    append_literal(&mut s, "]: ");
    s.append(d.message.as_str());
    s
}

/// What is reported when the file `path` has `count` diagnostics.
pub fn failure_line(count: usize, path: &str) -> (s: String)
    ensures
        s@ == failure_text(count as nat, path@),
{
    let mut s = decimal(count);
    append_literal(&mut s, " error(s) found in ");
    s.append(path);
    s
}

} // verus!
