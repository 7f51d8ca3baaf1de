//! Lexical helpers: character classes, token spellings, and maximal-run
//! scanning, shared by the parser.

use vstd::prelude::*;
use crate::node::Operator;

verus! {

// ----------------------------------------------------------------------------
// character classes
// ----------------------------------------------------------------------------

pub open spec fn is_digit_char(c: char) -> bool {
    '0' <= c && c <= '9'
}

pub open spec fn is_lower_char(c: char) -> bool {
    'a' <= c && c <= 'z'
}

pub open spec fn is_letter_char(c: char) -> bool {
    is_lower_char(c) || ('A' <= c && c <= 'Z')
}

pub open spec fn is_ident_char(c: char) -> bool {
    is_letter_char(c) || is_digit_char(c) || c == '_'
}

/// A character that may open (and close) a string literal.
pub open spec fn is_string_terminator_char(c: char) -> bool {
    c == '"' || c == '\''
}

/// A character that ends an expression without being consumed by it.
pub open spec fn is_expr_terminator_char(c: char) -> bool {
    c == ')' || c == ',' || c == '}'
}

/// Decides whether the character ends an expression.
pub fn is_expr_terminator(c: char) -> (r: bool)
    ensures
        r == is_expr_terminator_char(c),
{
    c == ')' || c == ',' || c == '}'
}

/// A character that may start or continue an operator token.
pub open spec fn is_operator_char(c: char) -> bool {
    c == '+' || c == '-' || c == '*' || c == '/' || c == '^' || c == '%' || c == '('
        || c == ')' || c == '.' || c == '!' || c == '=' || c == '<' || c == '>' || c == '&'
        || c == '|'
}

/// A whitespace character that is no line break: what expression-level
/// scanning may skip without eating a statement separator.
pub open spec fn is_inline_space_char(c: char) -> bool {
    is_space_char(c) && c != '\n'
}

/// The White_Space characters, as `char::is_whitespace` recognises them.
pub open spec fn is_space_char(c: char) -> bool {
    let u = c as u32;
    (9 <= u && u <= 13) || u == 0x20 || u == 0x85 || u == 0xA0 || u == 0x1680 || (0x2000 <= u
        && u <= 0x200A) || u == 0x2028 || u == 0x2029 || u == 0x202F || u == 0x205F || u == 0x3000
}

/// The classes the scanner takes maximal runs of.
#[derive(Clone, Copy, Debug)]
pub enum CharClass {
    Digit,
    Lower,
    Letter,
    Ident,
    Op,
    Space,
    /// Whitespace without line breaks.
    InlineSpace,
    /// Everything but the given character; a string literal's content runs
    /// to its terminator.
    NotChar(char),
}

/// The predicate a class stands for.
pub open spec fn class_pred(cl: CharClass) -> spec_fn(char) -> bool {
    match cl {
        CharClass::Digit => |c: char| is_digit_char(c),
        CharClass::Lower => |c: char| is_lower_char(c),
        CharClass::Letter => |c: char| is_letter_char(c),
        CharClass::Ident => |c: char| is_ident_char(c),
        CharClass::Op => |c: char| is_operator_char(c),
        CharClass::Space => |c: char| is_space_char(c),
        CharClass::InlineSpace => |c: char| is_inline_space_char(c),
        CharClass::NotChar(t) => |c: char| c != t,
    }
}

/// Decides membership of `c` in the class.
pub fn class_check(cl: CharClass, c: char) -> (r: bool)
    ensures
        r == class_pred(cl)(c),
{
    let u = c as u32;
    match cl {
        CharClass::Digit => 0x30 <= u && u <= 0x39,
        CharClass::Lower => 0x61 <= u && u <= 0x7A,
        CharClass::Letter => (0x61 <= u && u <= 0x7A) || (0x41 <= u && u <= 0x5A),
        CharClass::Ident => (0x61 <= u && u <= 0x7A) || (0x41 <= u && u <= 0x5A) || (0x30 <= u
            && u <= 0x39) || u == 0x5F,
        CharClass::Op => c == '+' || c == '-' || c == '*' || c == '/' || c == '^' || c == '%'
            || c == '(' || c == ')' || c == '.' || c == '!' || c == '=' || c == '<' || c == '>'
            || c == '&' || c == '|',
        CharClass::Space => (9 <= u && u <= 13) || u == 0x20 || u == 0x85 || u == 0xA0
            || u == 0x1680 || (0x2000 <= u && u <= 0x200A) || u == 0x2028 || u == 0x2029
            || u == 0x202F || u == 0x205F || u == 0x3000,
        CharClass::InlineSpace => ((9 <= u && u <= 13) || u == 0x20 || u == 0x85 || u == 0xA0
            || u == 0x1680 || (0x2000 <= u && u <= 0x200A) || u == 0x2028 || u == 0x2029
            || u == 0x202F || u == 0x205F || u == 0x3000) && c != '\n',
        CharClass::NotChar(t) => c != t,
    }
}

// ----------------------------------------------------------------------------
// maximal runs
// ----------------------------------------------------------------------------

/// Length of the maximal run of characters satisfying `p` starting at `i`.
pub open spec fn run_len(s: Seq<char>, i: int, p: spec_fn(char) -> bool) -> nat
    decreases s.len() - i,
{
    if 0 <= i && i < s.len() && p(s[i]) {
        1 + run_len(s, i + 1, p)
    } else {
        0
    }
}

/// The run length is non-negative, stays within the text, and every
/// character of the run satisfies `p` while the first one past it does not.
pub proof fn lemma_run_len(s: Seq<char>, i: int, p: spec_fn(char) -> bool)
    requires
        0 <= i <= s.len(),
    ensures
        0 <= run_len(s, i, p),
        i + run_len(s, i, p) <= s.len(),
        forall|j: int| i <= j < i + run_len(s, i, p) ==> p(#[trigger] s[j]),
        i + run_len(s, i, p) < s.len() ==> !p(s[i + run_len(s, i, p)]),
    decreases s.len() - i,
{
    if i < s.len() && p(s[i]) {
        lemma_run_len(s, i + 1, p);
    }
}

/// How many line breaks stand in `s` between `a` (inclusive) and `b`
/// (exclusive): what row counting follows.
pub open spec fn newlines_in(s: Seq<char>, a: int, b: int) -> nat
    decreases b - a,
{
    if a >= b {
        0
    } else {
        newlines_in(s, a, b - 1) + (if 0 <= b - 1 < s.len() && s[b - 1] == '\n' {
            1nat
        } else {
            0nat
        })
    }
}

/// The column after scanning `s[a..b)` from column `col0`: a line break
/// resets it to 0, every other character advances it — the
/// column-since-last-line-break discipline of error reporting.
pub open spec fn col_after(s: Seq<char>, a: int, b: int, col0: int) -> int
    decreases b - a,
{
    if a >= b {
        col0
    } else {
        col_after(s, a + 1, b, if 0 <= a < s.len() && s[a] == '\n' {
            0
        } else {
            col0 + 1
        })
    }
}

/// Scanning one more character steps the column once at the right end.
pub proof fn lemma_col_after_snoc(s: Seq<char>, a: int, b: int, col0: int)
    requires
        a <= b,
    ensures
        col_after(s, a, b + 1, col0) == (if 0 <= b < s.len() && s[b] == '\n' {
            0int
        } else {
            col_after(s, a, b, col0) + 1
        }),
    decreases b - a,
{
    if a < b {
        lemma_col_after_snoc(s, a + 1, b, if 0 <= a < s.len() && s[a] == '\n' {
            0
        } else {
            col0 + 1
        });
    } else {
        let c1: int = if 0 <= a < s.len() && s[a] == '\n' {
            0
        } else {
            col0 + 1
        };
        assert(col_after(s, a + 1, b + 1, c1) == c1);
    }
}

// ----------------------------------------------------------------------------
// token spellings
// ----------------------------------------------------------------------------

/// Maps an operator token's spelling to the operator, if any.
pub open spec fn operator_of(s: Seq<char>) -> Option<Operator> {
    if s.len() == 1 {
        match s[0] {
            '+' => Option::Some(Operator::Add),
            '-' => Option::Some(Operator::Sub),
            '*' => Option::Some(Operator::Mul),
            '/' => Option::Some(Operator::Div),
            '^' => Option::Some(Operator::Pow),
            '%' => Option::Some(Operator::Mod),
            '<' => Option::Some(Operator::Less),
            '>' => Option::Some(Operator::Greater),
            '=' => Option::Some(Operator::SetValue),
            '.' => Option::Some(Operator::FieldAccess),
            '(' => Option::Some(Operator::Paren),
            _ => Option::None,
        }
    } else if s.len() == 2 {
        if s[0] == '=' && s[1] == '=' {
            Option::Some(Operator::Equal)
        } else if s[0] == '!' && s[1] == '=' {
            Option::Some(Operator::Inequal)
        } else if s[0] == '<' && s[1] == '=' {
            Option::Some(Operator::LessEqual)
        } else if s[0] == '>' && s[1] == '=' {
            Option::Some(Operator::GreaterEqual)
        } else if s[0] == '&' && s[1] == '&' {
            Option::Some(Operator::And)
        } else if s[0] == '|' && s[1] == '|' {
            Option::Some(Operator::Or)
        } else {
            Option::None
        }
    } else {
        Option::None
    }
}

// ----------------------------------------------------------------------------
// string building
// ----------------------------------------------------------------------------

/// Relies on `String::push` of std: appends the one character.
pub assume_specification[ std::string::String::push ](s: &mut String, c: char)
    ensures
        final(s)@ == old(s)@.push(c),
;

} // verus!
