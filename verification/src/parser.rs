//! The parser: a cursor over the source characters, recursive-descent
//! grammar rules, and the operator-precedence contraction that turns a flat
//! value/operator sequence into a tree.

use vstd::prelude::*;
use vstd::string::StrSliceExecFns;
use crate::error::ParseError;
use crate::node::{
    block_wf, node_view, nodes_view, node_wf, nodes_wf, statement_wf, lemma_nodes_view_index,
    BinaryOp, Block, BlockV, Node, NodeV, Operator, Statement, StatementV,
};
use crate::syntax::{
    class_check, class_pred, col_after, is_digit_char, is_expr_terminator,
    is_expr_terminator_char, is_letter_char, is_operator_char, is_space_char,
    is_string_terminator_char, lemma_col_after_snoc, lemma_run_len, newlines_in, operator_of,
    run_len, CharClass,
};

verus! {

// ----------------------------------------------------------------------------
// literal values
// ----------------------------------------------------------------------------

/// The value of a digit run read as a decimal numeral.
pub open spec fn digits_val(s: Seq<char>) -> int
    decreases s.len(),
{
    if s.len() == 0 {
        0
    } else {
        digits_val(s.drop_last()) * 10 + (s.last() as int - '0' as int)
    }
}

/// A numeral's value is non-negative and no prefix of it exceeds it.
pub proof fn lemma_digits_val_prefix(s: Seq<char>, k: int)
    requires
        0 <= k <= s.len(),
        forall|j: int| 0 <= j < s.len() ==> is_digit_char(#[trigger] s[j]),
    ensures
        0 <= digits_val(s.subrange(0, k)) <= digits_val(s),
    decreases s.len(),
{
    if s.len() == 0 {
        assert(s.subrange(0, k) =~= s);
    } else {
        let pre = s.drop_last();
        assert(forall|j: int| 0 <= j < pre.len() ==> #[trigger] pre[j] == s[j]);
        lemma_digits_val_prefix(pre, if k <= pre.len() { k } else { pre.len() as int });
        assert(pre.subrange(0, pre.len() as int) =~= pre);
        assert(is_digit_char(s.last()));
        if k == s.len() {
            assert(s.subrange(0, k) =~= s);
        } else {
            assert(s.subrange(0, k) =~= pre.subrange(0, k));
        }
    }
}

// ----------------------------------------------------------------------------
// precedence resolution
// ----------------------------------------------------------------------------

/// The index contracted next: the leftmost occurrence of an operator of the
/// first priority level present in the sequence.
pub open spec fn pick_index(ops: Seq<Operator>) -> int
    decreases ops.len(),
{
    if ops.len() <= 1 {
        0
    } else {
        let rest = 1 + pick_index(ops.drop_first());
        if ops[0].spec_level() <= ops[rest].spec_level() {
            0
        } else {
            rest
        }
    }
}

/// `pick_index` names the leftmost minimal-level operator.
pub proof fn lemma_pick_index(ops: Seq<Operator>)
    requires
        ops.len() >= 1,
    ensures
        0 <= pick_index(ops) < ops.len(),
        forall|j: int| 0 <= j < ops.len() ==> (#[trigger] ops[j]).spec_level()
            >= ops[pick_index(ops)].spec_level(),
        forall|j: int| 0 <= j < pick_index(ops) ==> (#[trigger] ops[j]).spec_level()
            > ops[pick_index(ops)].spec_level(),
    decreases ops.len(),
{
    if ops.len() > 1 {
        lemma_pick_index(ops.drop_first());
        assert(forall|j: int| 1 <= j < ops.len() ==> #[trigger] ops[j] == ops.drop_first()[j - 1]);
    }
}

/// One contraction step on the value sequence: the two values joined by the
/// operator at `k` give way to the binary node built from them.
pub open spec fn contract_values(vs: Seq<NodeV>, ops: Seq<Operator>, k: int) -> Seq<NodeV> {
    vs.subrange(0, k) + seq![
        NodeV::BinaryOp(ops[k], Box::new(vs[k]), Box::new(vs[k + 1])),
    ] + vs.subrange(k + 2, vs.len() as int)
}

/// The tree an alternating value/operator sequence resolves to: while
/// operators remain, the one `pick_index` names is contracted.
pub open spec fn spec_resolve(vs: Seq<NodeV>, ops: Seq<Operator>) -> NodeV
    decreases ops.len(),
    via spec_resolve_decreases
{
    if ops.len() == 0 {
        vs[0]
    } else {
        let k = pick_index(ops);
        spec_resolve(contract_values(vs, ops, k), ops.remove(k))
    }
}

#[via_fn]
proof fn spec_resolve_decreases(vs: Seq<NodeV>, ops: Seq<Operator>) {
    if ops.len() > 0 {
        lemma_pick_index(ops);
    }
}

/// Builds the precedence-correct tree from the flat alternating sequence of
/// values and the operators between them.
fn resolve_operators(values: Vec<Node>, operators: Vec<Operator>) -> (r: Node)
    requires
        values@.len() == operators@.len() + 1,
        forall|k: int| 0 <= k < operators@.len() ==> (#[trigger] operators@[k]).spec_resolvable(),
        forall|k: int| 0 <= k < values@.len() ==> node_wf((#[trigger] values@[k])@),
    ensures
        r@ == spec_resolve(nodes_view(values@), operators@),
        node_wf(r@),
{
    let mut values = values;
    let mut operators = operators;
    let ghost orig_vs = nodes_view(values@);
    let ghost orig_ops = operators@;
    proof {
        lemma_nodes_view_index(values@);
    }
    while operators.len() > 0
        invariant
            values@.len() == operators@.len() + 1,
            forall|k: int| 0 <= k < operators@.len() ==> (
            #[trigger] operators@[k]).spec_resolvable(),
            forall|k: int| 0 <= k < values@.len() ==> node_wf((#[trigger] values@[k])@),
            spec_resolve(nodes_view(values@), operators@) == spec_resolve(orig_vs, orig_ops),
        decreases operators@.len(),
    {
        let ghost pre_values = values@;
        let ghost pre_vs = nodes_view(values@);
        let ghost pre_ops = operators@;
        proof {
            lemma_nodes_view_index(pre_values);
        }
        // leftmost operator of the first level present
        let mut best: usize = 0;
        let n = operators.len();
        for k in 1..n
            invariant
                n == operators@.len(),
                0 < n,
                best < k <= n,
                forall|j: int| 0 <= j < k ==> (#[trigger] operators@[j]).spec_level()
                    >= operators@[best as int].spec_level(),
                forall|j: int| 0 <= j < best ==> (#[trigger] operators@[j]).spec_level()
                    > operators@[best as int].spec_level(),
        {
            if operators[k].level() < operators[best].level() {
                best = k;
            }
        }
        proof {
            lemma_pick_index(operators@);
            let p = pick_index(operators@);
            if p < best {
                assert(operators@[p].spec_level() > operators@[best as int].spec_level());
                assert(operators@[best as int].spec_level() >= operators@[p].spec_level());
                assert(false);
            }
            if best < p {
                assert(operators@[best as int].spec_level() > operators@[p].spec_level());
                assert(operators@[best as int].spec_level() >= operators@[p].spec_level());
                assert(false);
            }
            assert(best as int == p);
        }
        let a = values.remove(best);
        let b = values.remove(best);
        let op = operators.remove(best);
        values.insert(best, Node::BinaryOp(Box::new(BinaryOp { op, a, b })));
        proof {
            lemma_nodes_view_index(values@);
            lemma_pick_index(pre_ops);
            let k = best as int;
            assert(a@ == pre_vs[k]);
            assert(b@ == pre_vs[k + 1]);
            assert(values@.len() == pre_values.len() - 1);
            assert(values@[k]@ == NodeV::BinaryOp(pre_ops[k], Box::new(pre_vs[k]), Box::new(
                pre_vs[k + 1],
            )));
            assert forall|j: int| 0 <= j < values@.len() implies nodes_view(values@)[j]
                == contract_values(pre_vs, pre_ops, k)[j] by {
                if j < k {
                    assert(values@[j] == pre_values[j]);
                } else if j == k {
                } else {
                    assert(values@[j] == pre_values[j + 1]);
                }
            }
            assert(nodes_view(values@) =~= contract_values(pre_vs, pre_ops, k));
            assert(operators@ =~= pre_ops.remove(k));
        }
    }
    proof {
        lemma_nodes_view_index(values@);
    }
    let r = match values.pop() {
        Option::Some(node) => node,
        Option::None => Node::Boolean(false),
    };
    r
}

/// A cursor positioned over the source text, with enough state to report a
/// human-readable row and column on failure.
pub struct Parser {
    chars: Vec<char>,
    i: usize,
    row: usize,
    col: usize,
}

/// The reserved words the statement grammar recognises.
#[derive(Clone, Copy, Debug, PartialEq, Eq, Structural)]
pub enum Keyword {
    Let,
    If,
    Elif,
    Else,
}

/// Maps a keyword's spelling to the keyword, if any.
pub open spec fn keyword_of(s: Seq<char>) -> Option<Keyword> {
    if s =~= seq!['l', 'e', 't'] {
        Option::Some(Keyword::Let)
    } else if s =~= seq!['i', 'f'] {
        Option::Some(Keyword::If)
    } else if s =~= seq!['e', 'l', 'i', 'f'] {
        Option::Some(Keyword::Elif)
    } else if s =~= seq!['e', 'l', 's', 'e'] {
        Option::Some(Keyword::Else)
    } else {
        Option::None
    }
}

impl Parser {
    /// The source text as a character sequence.
    pub closed spec fn text(self) -> Seq<char> {
        self.chars@
    }

    /// The cursor's position in the text.
    pub closed spec fn pos(self) -> int {
        self.i as int
    }

    pub closed spec fn spec_row(self) -> int {
        self.row as int
    }

    pub closed spec fn spec_col(self) -> int {
        self.col as int
    }

    /// The cursor never leaves the text, and the diagnostic counters never
    /// run ahead of it.
    pub closed spec fn wf(self) -> bool {
        self.i <= self.chars@.len() && self.row <= self.i && self.col <= self.i
    }

    /// Positions the cursor at the start of the given source text.
    pub fn new(buffer: String) -> (r: Self)
        ensures
            r.wf(),
            r.text() == buffer@,
            r.pos() == 0,
            r.spec_row() == 0,
            r.spec_col() == 0,
    {
        let s = buffer.as_str();
        let n = s.unicode_len();
        let mut chars: Vec<char> = Vec::new();
        for k in 0..n
            invariant
                n == s@.len(),
                chars@.len() == k,
                forall|j: int| 0 <= j < k ==> chars@[j] == s@[j],
        {
            chars.push(s.get_char(k));
        }
        proof {
            assert(chars@ =~= buffer@);
        }
        Self { chars, i: 0, row: 0, col: 0 }
    }

    /// The 1-based row for error reporting.
    pub fn row(&self) -> (r: usize)
        ensures
            r as int == if self.spec_row() < usize::MAX { self.spec_row() + 1 } else {
                self.spec_row()
            },
    {
        if self.row < usize::MAX {
            self.row + 1
        } else {
            self.row
        }
    }

    /// The 0-based column for error reporting, measured from the last line
    /// break.
    pub fn col(&self) -> (r: usize)
        ensures
            r as int == self.spec_col(),
    {
        self.col
    }

    // ------------------------------------------------------------------
    // cursor helpers
    // ------------------------------------------------------------------

    /// Advances over one character.
    fn step(&mut self)
        requires
            old(self).wf(),
            old(self).pos() < old(self).text().len(),
        ensures
            final(self).wf(),
            final(self).text() == old(self).text(),
            final(self).pos() == old(self).pos() + 1,
            final(self).spec_row() == old(self).spec_row(),
            final(self).spec_col() == old(self).spec_col() + 1,
    {
        let n = self.chars.len();
        assert(self.i < n);
        self.i = self.i + 1;
        self.col = self.col + 1;
    }

    /// Advances over `n` characters.
    fn stepn(&mut self, n: usize)
        requires
            old(self).wf(),
            old(self).pos() + n <= old(self).text().len(),
        ensures
            final(self).wf(),
            final(self).text() == old(self).text(),
            final(self).pos() == old(self).pos() + n,
            final(self).spec_row() == old(self).spec_row(),
            final(self).spec_col() == old(self).spec_col() + n,
    {
        let total = self.chars.len();
        assert(self.i + n <= total);
        self.i = self.i + n;
        self.col = self.col + n;
    }

    /// The character under the cursor, or `EndOfInput` past the end.
    fn peek(&self) -> (r: Result<char, ParseError>)
        requires
            self.wf(),
        ensures
            self.pos() < self.text().len() ==> r == Ok::<char, ParseError>(
                self.text()[self.pos()],
            ),
            self.pos() == self.text().len() ==> r == Err::<char, ParseError>(
                ParseError::EndOfInput,
            ),
    {
        if self.i < self.chars.len() {
            Ok(self.chars[self.i])
        } else {
            Err(ParseError::EndOfInput)
        }
    }

    /// The character under the cursor, consuming it.
    fn next(&mut self) -> (r: Result<char, ParseError>)
        requires
            old(self).wf(),
        ensures
            final(self).wf(),
            final(self).text() == old(self).text(),
            old(self).pos() < old(self).text().len() ==> r == Ok::<char, ParseError>(
                old(self).text()[old(self).pos()],
            ) && final(self).pos() == old(self).pos() + 1,
            old(self).pos() == old(self).text().len() ==> r == Err::<char, ParseError>(
                ParseError::EndOfInput,
            ) && final(self).pos() == old(self).pos(),
    {
        if self.i < self.chars.len() {
            let c = self.chars[self.i];
            self.step();
            Ok(c)
        } else {
            Err(ParseError::EndOfInput)
        }
    }

    /// Requires the literal `token` at the cursor and consumes it.
    fn expect(&mut self, token: &str) -> (r: Result<(), ParseError>)
        requires
            old(self).wf(),
        ensures
            final(self).wf(),
            final(self).text() == old(self).text(),
            old(self).pos() <= final(self).pos() <= final(self).text().len(),
            ({
                let n = token@.len();
                if old(self).pos() + n > old(self).text().len() {
                    r == Err::<(), ParseError>(ParseError::EndOfInput) && final(self).pos()
                        == old(self).pos()
                } else if old(self).text().subrange(old(self).pos(), old(self).pos() + n)
                    == token@ {
                    r == Ok::<(), ParseError>(()) && final(self).pos() == old(self).pos() + n
                } else {
                    (r matches Err(e) && e matches ParseError::ExpectedToken(t) && t@ == token@)
                        && final(self).pos() == old(self).pos()
                }
            }),
    {
        let n = token.unicode_len();
        let total = self.chars.len();
        if n > total - self.i {
            return Err(ParseError::EndOfInput);
        }
        for k in 0..n
            invariant
                self.wf(),
                n == token@.len(),
                total == self.text().len(),
                self.pos() + n <= total,
                forall|j: int| 0 <= j < k ==> self.text()[self.pos() + j] == token@[j],
        {
            if self.chars[self.i + k] != token.get_char(k) {
                proof {
                    let sub = self.text().subrange(self.pos(), self.pos() + n as int);
                    assert(sub[k as int] != token@[k as int]);
                }
                let mut t = String::new();
                for m in 0..n
                    invariant
                        n == token@.len(),
                        t@ == token@.subrange(0, m as int),
                {
                    t.push(token.get_char(m));
                    proof {
                        assert(t@ =~= token@.subrange(0, m + 1));
                    }
                }
                proof {
                    assert(t@ =~= token@);
                }
                return Err(ParseError::ExpectedToken(t));
            }
        }
        proof {
            assert(self.text().subrange(self.pos(), self.pos() + token@.len()) =~= token@);
        }
        self.stepn(n);
        Ok(())
    }

    /// First position at or after the cursor whose character falls outside
    /// the class: the end of the maximal run.
    fn run_end(&self, cl: CharClass) -> (e: usize)
        requires
            self.wf(),
        ensures
            e as int == self.pos() + run_len(self.text(), self.pos(), class_pred(cl)),
    {
        let ghost p = class_pred(cl);
        let mut e = self.i;
        while e < self.chars.len() && class_check(cl, self.chars[e])
            invariant
                self.wf(),
                p == class_pred(cl),
                self.pos() <= e as int <= self.text().len(),
                run_len(self.text(), self.pos(), p) == (e as int - self.pos()) + run_len(
                    self.text(),
                    e as int,
                    p,
                ),
                forall|j: int| self.pos() <= j < e as int ==> p(#[trigger] self.text()[j]),
            decreases self.text().len() - e,
        {
            proof {
                assert(p(self.text()[e as int]));
                assert(run_len(self.text(), e as int, p) == 1 + run_len(
                    self.text(),
                    e as int + 1,
                    p,
                ));
            }
            e = e + 1;
        }
        proof {
            assert(run_len(self.text(), e as int, p) == 0);
        }
        e
    }

    /// The characters from `from` (inclusive) to `to` (exclusive) as a
    /// string.
    fn collect(&self, from: usize, to: usize) -> (s: String)
        requires
            self.wf(),
            from <= to <= self.text().len(),
        ensures
            s@ == self.text().subrange(from as int, to as int),
    {
        let mut s = String::new();
        for k in from..to
            invariant
                self.wf(),
                from <= to <= self.text().len(),
                s@ == self.text().subrange(from as int, k as int),
        {
            s.push(self.chars[k]);
            proof {
                assert(s@ =~= self.text().subrange(from as int, k + 1));
            }
        }
        s
    }

    /// Notes a line break the cursor just passed, for diagnostics.
    fn mark_line_break(&mut self)
        requires
            old(self).wf(),
        ensures
            final(self).wf(),
            final(self).text() == old(self).text(),
            final(self).pos() == old(self).pos(),
            final(self).spec_col() == 0,
            old(self).spec_row() < old(self).pos() ==> final(self).spec_row() == old(
                self,
            ).spec_row() + 1,
    {
        self.col = 0;
        if self.row < self.i {
            self.row = self.row + 1;
        }
    }

    /// Skips the maximal whitespace run under the cursor, counting line
    /// breaks for diagnostics; reports `EndOfInput` when skipping reached
    /// the end of the text.
    fn skip_whitespace(&mut self) -> (r: Result<(), ParseError>)
        requires
            old(self).wf(),
        ensures
            final(self).wf(),
            final(self).text() == old(self).text(),
            old(self).pos() <= final(self).pos() <= final(self).text().len(),
            final(self).pos() == old(self).pos() + run_len(
                old(self).text(),
                old(self).pos(),
                class_pred(CharClass::Space),
            ),
            final(self).pos() < final(self).text().len() ==> r == Ok::<(), ParseError>(()),
            final(self).pos() == final(self).text().len() ==> r == Err::<(), ParseError>(
                ParseError::EndOfInput,
            ),
            final(self).spec_row() == old(self).spec_row() + newlines_in(
                old(self).text(),
                old(self).pos(),
                final(self).pos(),
            ),
            final(self).spec_col() == col_after(
                old(self).text(),
                old(self).pos(),
                final(self).pos(),
                old(self).spec_col(),
            ),
    {
        let ghost p = class_pred(CharClass::Space);
        let ghost start = self.pos();
        let n = self.chars.len();
        loop
            invariant
                self.wf(),
                p == class_pred(CharClass::Space),
                n == self.text().len(),
                self.text() == old(self).text(),
                start == old(self).pos(),
                start <= self.pos(),
                run_len(self.text(), start, p) == (self.pos() - start) + run_len(
                    self.text(),
                    self.pos(),
                    p,
                ),
                self.spec_row() == old(self).spec_row() + newlines_in(
                    self.text(),
                    start,
                    self.pos(),
                ),
                self.spec_col() == col_after(
                    self.text(),
                    start,
                    self.pos(),
                    old(self).spec_col(),
                ),
            decreases self.text().len() - self.pos(),
        {
            if self.i < n {
                let c = self.chars[self.i];
                if class_check(CharClass::Space, c) {
                    proof {
                        assert(run_len(self.text(), self.pos(), p) == 1 + run_len(
                            self.text(),
                            self.pos() + 1,
                            p,
                        ));
                        assert(newlines_in(self.text(), start, self.pos() + 1) == newlines_in(
                            self.text(),
                            start,
                            self.pos(),
                        ) + (if self.text()[self.pos()] == '\n' {
                            1nat
                        } else {
                            0nat
                        }));
                        lemma_col_after_snoc(
                            self.text(),
                            start,
                            self.pos(),
                            old(self).spec_col(),
                        );
                    }
                    self.step();
                    if c == '\n' {
                        self.col = 0;
                        self.row = self.row + 1;
                    }
                } else {
                    proof {
                        assert(run_len(self.text(), self.pos(), p) == 0);
                    }
                    return Ok(());
                }
            } else {
                proof {
                    assert(run_len(self.text(), self.pos(), p) == 0);
                }
                return Err(ParseError::EndOfInput);
            }
        }
    }

    /// Skips the maximal run of whitespace short of a line break: what an
    /// expression may pass over without eating a statement separator.
    fn skip_inline_whitespace(&mut self) -> (r: Result<(), ParseError>)
        requires
            old(self).wf(),
        ensures
            final(self).wf(),
            final(self).text() == old(self).text(),
            old(self).pos() <= final(self).pos() <= final(self).text().len(),
            final(self).pos() == old(self).pos() + run_len(
                old(self).text(),
                old(self).pos(),
                class_pred(CharClass::InlineSpace),
            ),
            final(self).pos() < final(self).text().len() ==> r == Ok::<(), ParseError>(()),
            final(self).pos() == final(self).text().len() ==> r == Err::<(), ParseError>(
                ParseError::EndOfInput,
            ),
    {
        let ghost p = class_pred(CharClass::InlineSpace);
        let start = self.i;
        let e = self.run_end(CharClass::InlineSpace);
        proof {
            lemma_run_len(self.text(), self.pos(), p);
        }
        self.stepn(e - start);
        if self.i < self.chars.len() {
            Ok(())
        } else {
            Err(ParseError::EndOfInput)
        }
    }

    // ------------------------------------------------------------------
    // token readers
    // ------------------------------------------------------------------

    /// Reads the maximal digit run as an integer literal; a numeral too
    /// large for the integer type is a fatal `IntegerOverflow`.
    fn read_integer(&mut self) -> (r: Result<Node, ParseError>)
        requires
            old(self).wf(),
            old(self).pos() < old(self).text().len(),
            is_digit_char(old(self).text()[old(self).pos()]),
        ensures
            final(self).wf(),
            final(self).text() == old(self).text(),
            old(self).pos() <= final(self).pos() <= final(self).text().len(),
            ({
                let d = run_len(old(self).text(), old(self).pos(), class_pred(CharClass::Digit));
                let v = digits_val(
                    old(self).text().subrange(old(self).pos(), old(self).pos() + d),
                );
                final(self).pos() == old(self).pos() + d && (if v <= i32::MAX {
                    r matches Ok(node) && node == Node::Integer(v as i32)
                } else {
                    r == Err::<Node, ParseError>(ParseError::IntegerOverflow)
                })
            }),
            old(self).pos() < final(self).pos(),
    {
        let ghost p = class_pred(CharClass::Digit);
        let start = self.i;
        let e = self.run_end(CharClass::Digit);
        proof {
            lemma_run_len(self.text(), self.pos(), p);
        }
        let ghost run = self.text().subrange(start as int, e as int);
        let mut acc: i32 = 0;
        let mut ok = true;
        for k in start..e
            invariant
                self.wf(),
                start == self.pos(),
                start <= k <= e,
                e as int == start + run_len(self.text(), start as int, p),
                e <= self.text().len(),
                run == self.text().subrange(start as int, e as int),
                forall|j: int| start <= j < e ==> is_digit_char(#[trigger] self.text()[j]),
                ok ==> acc >= 0 && acc as int == digits_val(
                    self.text().subrange(start as int, k as int),
                ),
                !ok ==> digits_val(self.text().subrange(start as int, k as int)) > i32::MAX,
        {
            let c = self.chars[k];
            let d: i32 = ((c as u32) as i32) - 48;
            proof {
                let prefix = self.text().subrange(start as int, k as int);
                let longer = self.text().subrange(start as int, k + 1);
                assert(longer.drop_last() =~= prefix);
                assert(longer.last() == self.text()[k as int]);
            }
            if ok {
                match acc.checked_mul(10) {
                    Option::Some(m) => match m.checked_add(d) {
                        Option::Some(s2) => {
                            acc = s2;
                        },
                        Option::None => {
                            ok = false;
                        },
                    },
                    Option::None => {
                        ok = false;
                    },
                }
            }
        }
        self.stepn(e - start);
        if ok {
            Ok(Node::Integer(acc))
        } else {
            proof {
                lemma_digits_val_prefix(run, e - start as int);
                assert(run.subrange(0, run.len() as int) =~= run);
            }
            Err(ParseError::IntegerOverflow)
        }
    }

    /// Reads a string literal delimited by the character under the cursor;
    /// reaching the end of the text before the closing terminator is an
    /// `ExpectedToken` failure.
    fn read_string(&mut self) -> (r: Result<Node, ParseError>)
        requires
            old(self).wf(),
            old(self).pos() < old(self).text().len(),
            is_string_terminator_char(old(self).text()[old(self).pos()]),
        ensures
            final(self).wf(),
            final(self).text() == old(self).text(),
            old(self).pos() <= final(self).pos() <= final(self).text().len(),
            ({
                let s0 = old(self).text();
                let i0 = old(self).pos();
                let t = s0[i0];
                let d = run_len(s0, i0 + 1, class_pred(CharClass::NotChar(t)));
                if i0 + 1 + d < s0.len() {
                    (r matches Ok(node) && node matches Node::String(s) && s@ == s0.subrange(
                        i0 + 1,
                        i0 + 1 + d,
                    )) && final(self).pos() == i0 + 2 + d
                } else {
                    (r matches Err(e) && e matches ParseError::ExpectedToken(ts) && ts@ == seq![t])
                        && final(self).pos() == i0 + 1 + d
                }
            }),
            old(self).pos() < final(self).pos(),
    {
        let t = match self.next() {
            Ok(c) => c,
            Err(e) => {
                return Err(e);
            },
        };
        let ghost p = class_pred(CharClass::NotChar(t));
        let start = self.i;
        let e = self.run_end(CharClass::NotChar(t));
        proof {
            lemma_run_len(self.text(), self.pos(), p);
        }
        let content = self.collect(start, e);
        self.stepn(e - start);
        match self.next() {
            Ok(c2) => {
                if c2 != t {
                    let mut ts = String::new();
                    ts.push(c2);
                    proof {
                        assert(false);
                    }
                    Err(ParseError::ExpectedToken(ts))
                } else {
                    Ok(Node::String(content))
                }
            },
            Err(_) => {
                let mut ts = String::new();
                ts.push(t);
                proof {
                    assert(ts@ =~= seq![t]);
                }
                Err(ParseError::ExpectedToken(ts))
            },
        }
    }

    /// Reads the maximal identifier-character run, possibly empty.
    fn read_identifier(&mut self) -> (r: String)
        requires
            old(self).wf(),
        ensures
            final(self).wf(),
            final(self).text() == old(self).text(),
            old(self).pos() <= final(self).pos() <= final(self).text().len(),
            ({
                let d = run_len(old(self).text(), old(self).pos(), class_pred(CharClass::Ident));
                r@ == old(self).text().subrange(old(self).pos(), old(self).pos() + d)
                    && final(self).pos() == old(self).pos() + d
            }),
    {
        let start = self.i;
        let e = self.run_end(CharClass::Ident);
        proof {
            lemma_run_len(self.text(), self.pos(), class_pred(CharClass::Ident));
        }
        let s = self.collect(start, e);
        self.stepn(e - start);
        s
    }

    /// Reads the maximal operator-character run and matches it against the
    /// operator spellings; an unmatched run is an `InvalidOperator`.
    fn read_operator(&mut self) -> (r: Result<Operator, ParseError>)
        requires
            old(self).wf(),
        ensures
            final(self).wf(),
            final(self).text() == old(self).text(),
            old(self).pos() <= final(self).pos() <= final(self).text().len(),
            ({
                let d = run_len(old(self).text(), old(self).pos(), class_pred(CharClass::Op));
                let run = old(self).text().subrange(old(self).pos(), old(self).pos() + d);
                final(self).pos() == old(self).pos() + d && (match operator_of(run) {
                    Option::Some(op) => r == Ok::<Operator, ParseError>(op),
                    Option::None => r matches Err(e) && e matches ParseError::InvalidOperator(t)
                        && t@ == run,
                })
            }),
    {
        let start = self.i;
        let e = self.run_end(CharClass::Op);
        proof {
            lemma_run_len(self.text(), self.pos(), class_pred(CharClass::Op));
        }
        let ghost run = self.text().subrange(start as int, e as int);
        self.stepn(e - start);
        let len = e - start;
        if len == 1 {
            proof {
                assert(run =~= seq![self.text()[start as int]]);
            }
            let c = self.chars[start];
            match c {
                '+' => Ok(Operator::Add),
                '-' => Ok(Operator::Sub),
                '*' => Ok(Operator::Mul),
                '/' => Ok(Operator::Div),
                '^' => Ok(Operator::Pow),
                '%' => Ok(Operator::Mod),
                '<' => Ok(Operator::Less),
                '>' => Ok(Operator::Greater),
                '=' => Ok(Operator::SetValue),
                '.' => Ok(Operator::FieldAccess),
                '(' => Ok(Operator::Paren),
                _ => Err(ParseError::InvalidOperator(self.collect(start, e))),
            }
        } else if len == 2 {
            proof {
                assert(run =~= seq![self.text()[start as int], self.text()[start + 1]]);
            }
            let c0 = self.chars[start];
            let c1 = self.chars[start + 1];
            if c0 == '=' && c1 == '=' {
                Ok(Operator::Equal)
            } else if c0 == '!' && c1 == '=' {
                Ok(Operator::Inequal)
            } else if c0 == '<' && c1 == '=' {
                Ok(Operator::LessEqual)
            } else if c0 == '>' && c1 == '=' {
                Ok(Operator::GreaterEqual)
            } else if c0 == '&' && c1 == '&' {
                Ok(Operator::And)
            } else if c0 == '|' && c1 == '|' {
                Ok(Operator::Or)
            } else {
                Err(ParseError::InvalidOperator(self.collect(start, e)))
            }
        } else {
            Err(ParseError::InvalidOperator(self.collect(start, e)))
        }
    }
}

/// The keyword standing at position `i`, if any: a non-empty lowercase run
/// that spells a keyword and is followed by a whitespace character.
pub open spec fn keyword_at(s: Seq<char>, i: int) -> Option<Keyword> {
    let d = run_len(s, i, class_pred(CharClass::Lower));
    if d > 0 && i + d < s.len() && is_space_char(s[i + d]) {
        keyword_of(s.subrange(i, i + d))
    } else {
        Option::None
    }
}

impl Parser {
    /// Looks for a keyword under the cursor without consuming anything.
    fn peek_keyword(&self) -> (r: Option<Keyword>)
        requires
            self.wf(),
        ensures
            r == keyword_at(self.text(), self.pos()),
    {
        let e = self.run_end(CharClass::Lower);
        proof {
            lemma_run_len(self.text(), self.pos(), class_pred(CharClass::Lower));
        }
        if e == self.i || e >= self.chars.len() {
            return Option::None;
        }
        if !class_check(CharClass::Space, self.chars[e]) {
            return Option::None;
        }
        let ghost run = self.text().subrange(self.pos(), e as int);
        proof {
            assert(forall|j: int| 0 <= j < run.len() ==> #[trigger] run[j] == self.text()[
                self.pos() + j
            ]);
        }
        let len = e - self.i;
        if len == 3 && self.chars[self.i] == 'l' && self.chars[self.i + 1] == 'e'
            && self.chars[self.i + 2] == 't' {
            proof {
                assert(run =~= seq!['l', 'e', 't']);
            }
            Option::Some(Keyword::Let)
        } else if len == 2 && self.chars[self.i] == 'i' && self.chars[self.i + 1] == 'f' {
            proof {
                assert(run =~= seq!['i', 'f']);
            }
            Option::Some(Keyword::If)
        } else if len == 4 && self.chars[self.i] == 'e' && self.chars[self.i + 1] == 'l'
            && self.chars[self.i + 2] == 'i' && self.chars[self.i + 3] == 'f' {
            proof {
                assert(run =~= seq!['e', 'l', 'i', 'f']);
            }
            Option::Some(Keyword::Elif)
        } else if len == 4 && self.chars[self.i] == 'e' && self.chars[self.i + 1] == 'l'
            && self.chars[self.i + 2] == 's' && self.chars[self.i + 3] == 'e' {
            proof {
                assert(run =~= seq!['e', 'l', 's', 'e']);
            }
            Option::Some(Keyword::Else)
        } else {
            proof {
                assert(!(run =~= seq!['l', 'e', 't']));
                assert(!(run =~= seq!['i', 'f']));
                assert(!(run =~= seq!['e', 'l', 'i', 'f']));
                assert(!(run =~= seq!['e', 'l', 's', 'e']));
            }
            Option::None
        }
    }

    /// Reads a keyword and the whitespace that follows it, or reads nothing.
    fn read_keyword(&mut self) -> (r: Option<Keyword>)
        requires
            old(self).wf(),
        ensures
            final(self).wf(),
            final(self).text() == old(self).text(),
            old(self).pos() <= final(self).pos() <= final(self).text().len(),
            r == keyword_at(old(self).text(), old(self).pos()),
            r is None ==> final(self).pos() == old(self).pos() && final(self).spec_row() == old(
                self,
            ).spec_row() && final(self).spec_col() == old(self).spec_col(),
            r is Some ==> ({
                let d = run_len(old(self).text(), old(self).pos(), class_pred(CharClass::Lower));
                let w = run_len(old(self).text(), old(self).pos() + d, class_pred(CharClass::Space));
                final(self).pos() == old(self).pos() + d + w && w >= 1
            }),
    {
        match self.peek_keyword() {
            Option::None => Option::None,
            Option::Some(kw) => {
                let start = self.i;
                let e = self.run_end(CharClass::Lower);
                proof {
                    lemma_run_len(self.text(), self.pos(), class_pred(CharClass::Lower));
                }
                self.stepn(e - start);
                proof {
                    let s0 = old(self).text();
                    let d = run_len(s0, old(self).pos(), class_pred(CharClass::Lower));
                    assert(is_space_char(s0[old(self).pos() + d]));
                    assert(class_pred(CharClass::Space)(s0[old(self).pos() + d]));
                    assert(old(self).pos() + d < s0.len());
                    lemma_run_len(s0, old(self).pos() + d + 1, class_pred(CharClass::Space));
                    assert(run_len(s0, self.pos(), class_pred(CharClass::Space)) == 1 + run_len(
                        s0,
                        old(self).pos() + d + 1,
                        class_pred(CharClass::Space),
                    ));
                }
                let _ = self.skip_whitespace();
                Option::Some(kw)
            },
        }
    }
}

// ----------------------------------------------------------------------------
// the literal-token expression fragment
// ----------------------------------------------------------------------------

/// One value token standing at `i`: an integer, string, or identifier
/// literal, or a parenthesised flat expression, with the node it denotes
/// and the position just after it. `None` where no such token stands
/// (including an integer too large for the integer type, an unterminated
/// string, or an inner expression not closed by `)`).
pub open spec fn token_value_at(s: Seq<char>, i: int) -> Option<(NodeV, int)>
    decreases s.len() - i, 0int,
{
    if !(0 <= i < s.len()) {
        Option::None
    } else {
        let c = s[i];
        if is_digit_char(c) {
            let d = run_len(s, i, class_pred(CharClass::Digit));
            let v = digits_val(s.subrange(i, i + d));
            if v <= i32::MAX {
                Option::Some((NodeV::Integer(v as i32), i + d))
            } else {
                Option::None
            }
        } else if is_string_terminator_char(c) {
            let d = run_len(s, i + 1, class_pred(CharClass::NotChar(c)));
            if i + 1 + d < s.len() {
                Option::Some((NodeV::String(s.subrange(i + 1, i + 1 + d)), i + 2 + d))
            } else {
                Option::None
            }
        } else if is_letter_char(c) {
            let d = run_len(s, i, class_pred(CharClass::Ident));
            Option::Some((NodeV::Identifier(s.subrange(i, i + d)), i + d))
        } else if c == '(' {
            match flat_expr_at(s, i + 1) {
                Option::Some(t) => if t.2 < s.len() && s[t.2] == ')' {
                    Option::Some((spec_resolve(t.0, t.1), t.2 + 1))
                } else {
                    Option::None
                },
                Option::None => Option::None,
            }
        } else {
            Option::None
        }
    }
}

/// A flat expression of literal value tokens starting at `i`: tokens
/// joined by resolvable operators, inline whitespace between a token and
/// what follows, any whitespace after an operator, ending before a
/// terminator or any character that is no operator. Yields the value
/// sequence, the operator sequence between the values, and the end
/// position. `None` where the text leaves the fragment: a call suffix, a
/// grammar-only marker, an unknown operator spelling, or an operator at
/// the very end.
pub open spec fn flat_expr_at(s: Seq<char>, i: int) -> Option<(Seq<NodeV>, Seq<Operator>, int)>
    decreases s.len() - i, 1int,
{
    match token_value_at(s, i) {
        Option::None => Option::None,
        Option::Some((v, j)) => if !(i < j <= s.len()) {
            // a token always moves forward; this guard only grounds the
            // recursion
            Option::None
        } else {
            let j2 = j + run_len(s, j, class_pred(CharClass::InlineSpace));
            if j2 < s.len() && s[j2] == '(' {
                Option::None
            } else if j2 >= s.len() {
                Option::Some((seq![v], Seq::empty(), j2))
            } else {
                let c = s[j2];
                if is_expr_terminator_char(c) {
                    Option::Some((seq![v], Seq::empty(), j2))
                } else if is_operator_char(c) {
                    let d = run_len(s, j2, class_pred(CharClass::Op));
                    match operator_of(s.subrange(j2, j2 + d)) {
                        Option::None => Option::None,
                        Option::Some(op) => if !op.spec_resolvable() {
                            Option::None
                        } else {
                            let k = j2 + d + run_len(
                                s,
                                j2 + d,
                                class_pred(CharClass::Space),
                            );
                            if k >= s.len() {
                                Option::None
                            } else {
                                match flat_expr_at(s, k) {
                                    Option::None => Option::None,
                                    Option::Some((vs, ops, e)) => Option::Some(
                                        (seq![v] + vs, seq![op] + ops, e),
                                    ),
                                }
                            }
                        },
                    }
                } else {
                    Option::Some((seq![v], Seq::empty(), j2))
                }
            }
        },
    }
}

/// A token, where one stands, always moves the position forward and stays
/// within the text, so the guard inside `flat_expr_at` never fires.
pub proof fn lemma_token_progress(s: Seq<char>, i: int)
    requires
        token_value_at(s, i) is Some,
    ensures
        i < (token_value_at(s, i)->0).1 <= s.len(),
    decreases s.len() - i, 0int,
{
    let c = s[i];
    if is_digit_char(c) {
        lemma_run_len(s, i, class_pred(CharClass::Digit));
        assert(run_len(s, i, class_pred(CharClass::Digit)) >= 1);
    } else if is_string_terminator_char(c) {
        lemma_run_len(s, i + 1, class_pred(CharClass::NotChar(c)));
    } else if is_letter_char(c) {
        lemma_run_len(s, i, class_pred(CharClass::Ident));
        assert(run_len(s, i, class_pred(CharClass::Ident)) >= 1);
    } else {
        lemma_flat_end(s, i + 1);
    }
}

/// A flat expression, where one stands, ends within the text and after
/// its first token.
pub proof fn lemma_flat_end(s: Seq<char>, i: int)
    requires
        flat_expr_at(s, i) is Some,
    ensures
        i < (flat_expr_at(s, i)->0).2 <= s.len(),
    decreases s.len() - i, 1int,
{
    let t = token_value_at(s, i);
    lemma_token_progress(s, i);
    let j = (t->0).1;
    lemma_run_len(s, j, class_pred(CharClass::InlineSpace));
    let j2 = j + run_len(s, j, class_pred(CharClass::InlineSpace));
    if !(j2 < s.len() && s[j2] == '(') && j2 < s.len() {
        let c = s[j2];
        if !is_expr_terminator_char(c) && is_operator_char(c) {
            let d = run_len(s, j2, class_pred(CharClass::Op));
            lemma_run_len(s, j2, class_pred(CharClass::Op));
            lemma_run_len(s, j2 + d, class_pred(CharClass::Space));
            let k = j2 + d + run_len(s, j2 + d, class_pred(CharClass::Space));
            if k < s.len() && flat_expr_at(s, k) is Some {
                lemma_flat_end(s, k);
            }
        }
    }
}

/// The tail of a `let` statement standing at `i` (just after the keyword
/// and its whitespace): an identifier run, `=` between whitespace, and a
/// flat expression. Yields the definition node and the end position.
pub open spec fn let_tail_at(s: Seq<char>, i: int) -> Option<(NodeV, int)> {
    let dn = run_len(s, i, class_pred(CharClass::Ident));
    let name = s.subrange(i, i + dn);
    let q = i + dn + run_len(s, i + dn, class_pred(CharClass::Space));
    if q < s.len() && s[q] == '=' {
        let w = q + 1 + run_len(s, q + 1, class_pred(CharClass::Space));
        if w < s.len() {
            match flat_expr_at(s, w) {
                Option::Some(t) => Option::Some(
                    (
                        NodeV::Statement(
                            StatementV::SetVariable(name, Box::new(spec_resolve(t.0, t.1))),
                        ),
                        t.2,
                    ),
                ),
                Option::None => Option::None,
            }
        } else {
            Option::None
        }
    } else {
        Option::None
    }
}

/// One statement of the simple fragment standing at `i`: a `let` over a
/// flat defining expression, or a flat expression statement. Yields the
/// statement's node and the end position.
pub open spec fn simple_stmt_at(s: Seq<char>, i: int) -> Option<(NodeV, int)> {
    match keyword_at(s, i) {
        Option::Some(kw) => if kw is Let {
            let d = run_len(s, i, class_pred(CharClass::Lower));
            let p = i + d + run_len(s, i + d, class_pred(CharClass::Space));
            let_tail_at(s, p)
        } else {
            Option::None
        },
        Option::None => match flat_expr_at(s, i) {
            Option::Some(t) => Option::Some((spec_resolve(t.0, t.1), t.2)),
            Option::None => Option::None,
        },
    }
}

/// A call-argument list of the simple fragment, the cursor standing just
/// past the opening `(`: flat expressions separated by `,`, closed by a
/// consumed `)`; whitespace is skipped before the first argument and
/// after each comma. Yields the argument nodes in source order and the
/// position after the `)`.
pub open spec fn args_list_at(s: Seq<char>, i: int) -> Option<(Seq<NodeV>, int)> {
    args_tail_at(s, i + run_len(s, i, class_pred(CharClass::Space)))
}

/// The arguments from an expression start onward.
pub open spec fn args_tail_at(s: Seq<char>, i: int) -> Option<(Seq<NodeV>, int)>
    decreases s.len() - i,
{
    match flat_expr_at(s, i) {
        Option::None => Option::None,
        Option::Some(t) => if !(i < t.2 <= s.len()) {
            // an expression always moves forward; this guard only grounds
            // the recursion
            Option::None
        } else if t.2 >= s.len() {
            Option::None
        } else if s[t.2] == ')' {
            Option::Some((seq![spec_resolve(t.0, t.1)], t.2 + 1))
        } else if s[t.2] == ',' {
            let k = t.2 + 1 + run_len(s, t.2 + 1, class_pred(CharClass::Space));
            if k > s.len() {
                Option::None
            } else {
                match args_tail_at(s, k) {
                    Option::Some((vs, e)) => Option::Some(
                        (seq![spec_resolve(t.0, t.1)] + vs, e),
                    ),
                    Option::None => Option::None,
                }
            }
        } else {
            Option::None
        },
    }
}

/// A statement list of the simple fragment standing at `i`: statements
/// separated by `;` or a line break, each separator followed by skipped
/// whitespace; the list ends at the end of the text, or — inside braces —
/// at a consuming `}` standing where a statement would. Yields the
/// statements' nodes in source order and the end position.
pub open spec fn stmt_list_at(s: Seq<char>, i: int, inner: bool) -> Option<(Seq<NodeV>, int)>
    decreases s.len() - i,
{
    match simple_stmt_at(s, i) {
        Option::None => Option::None,
        Option::Some((n, e)) => if !(i < e <= s.len()) {
            // a statement always moves forward; this guard only grounds
            // the recursion
            Option::None
        } else if e >= s.len() {
            Option::Some((seq![n], e))
        } else if s[e] != ';' && s[e] != '\n' {
            Option::None
        } else {
            let w = e + 1 + run_len(s, e + 1, class_pred(CharClass::Space));
            if w >= s.len() {
                Option::Some((seq![n], w))
            } else if inner && s[w] == '}' {
                Option::Some((seq![n], w + 1))
            } else {
                match stmt_list_at(s, w, inner) {
                    Option::Some((vs, e2)) => Option::Some((seq![n] + vs, e2)),
                    Option::None => Option::None,
                }
            }
        },
    }
}

/// A block of the simple fragment standing at `i`: with `inner`, a leading
/// `{` before the statement list; at top level the list itself. Leading
/// whitespace that reaches the end of the text is the empty block.
pub open spec fn block_at(s: Seq<char>, i: int, inner: bool) -> Option<(Seq<NodeV>, int)> {
    if inner {
        if 0 <= i < s.len() && s[i] == '{' {
            block_body_at(s, i + 1, true)
        } else {
            Option::None
        }
    } else {
        block_body_at(s, i, false)
    }
}

/// The statement list of a block, past any `{`: skipped whitespace, then
/// the statements, or the empty block where the whitespace reaches the
/// end.
pub open spec fn block_body_at(s: Seq<char>, i: int, inner: bool) -> Option<(Seq<NodeV>, int)> {
    let j = i + run_len(s, i, class_pred(CharClass::Space));
    if j >= s.len() {
        Option::Some((Seq::empty(), j))
    } else {
        stmt_list_at(s, j, inner)
    }
}

/// A whole program of the simple fragment: the top-level statement list
/// covering the entire text.
pub open spec fn program_at(s: Seq<char>) -> Option<Seq<NodeV>> {
    match block_at(s, 0, false) {
        Option::Some(t) => if t.1 + run_len(s, t.1, class_pred(CharClass::InlineSpace))
            == s.len() {
            Option::Some(t.0)
        } else {
            Option::None
        },
        Option::None => Option::None,
    }
}

impl Parser {
    // ------------------------------------------------------------------
    // grammar rules
    // ------------------------------------------------------------------

    /// Reads one value: an integer or string literal, an identifier, or a
    /// parenthesised sub-expression; a value immediately followed by `(`
    /// becomes the callee of a call expression.
    fn read_value(&mut self) -> (r: Result<Node, ParseError>)
        requires
            old(self).wf(),
        ensures
            final(self).wf(),
            final(self).text() == old(self).text(),
            old(self).pos() <= final(self).pos(),
            r matches Ok(n) ==> node_wf(n@) && old(self).pos() < final(self).pos(),
            old(self).pos() == old(self).text().len() ==> r == Err::<Node, ParseError>(
                ParseError::EndOfInput,
            ),
            ({
                let s0 = old(self).text();
                let i0 = old(self).pos();
                i0 < s0.len() ==> ({
                    let c = s0[i0];
                    (!is_digit_char(c) && !is_string_terminator_char(c) && !is_letter_char(c)
                        && c != '(') ==> r == Err::<Node, ParseError>(
                        ParseError::UnexpectedCharacter(c),
                    ) && final(self).pos() == i0
                })
            }),
            ({
                let s0 = old(self).text();
                let i0 = old(self).pos();
                (i0 < s0.len() && is_digit_char(s0[i0])) ==> ({
                    let d = run_len(s0, i0, class_pred(CharClass::Digit));
                    let v = digits_val(s0.subrange(i0, i0 + d));
                    let j2 = i0 + d + run_len(s0, i0 + d, class_pred(CharClass::InlineSpace));
                    if v > i32::MAX {
                        r == Err::<Node, ParseError>(ParseError::IntegerOverflow)
                    } else if j2 < s0.len() && s0[j2] == '(' {
                        match args_list_at(s0, j2 + 1) {
                            Option::Some(a) => (r matches Ok(n) && (
                            n matches Node::ParenArgs(root, argv) && *root == Node::Integer(
                                v as i32,
                            ) && nodes_view(argv@) == a.0)) && final(self).pos() == a.1,
                            Option::None => r matches Ok(n) ==> (n matches Node::ParenArgs(
                                root,
                                u,
                            ) && *root == Node::Integer(v as i32)),
                        }
                    } else {
                        r == Ok::<Node, ParseError>(Node::Integer(v as i32)) && final(self).pos()
                            == j2
                    }
                })
            }),
            ({
                let s0 = old(self).text();
                let i0 = old(self).pos();
                (i0 < s0.len() && is_letter_char(s0[i0])) ==> ({
                    let d = run_len(s0, i0, class_pred(CharClass::Ident));
                    let name = s0.subrange(i0, i0 + d);
                    let j2 = i0 + d + run_len(s0, i0 + d, class_pred(CharClass::InlineSpace));
                    if j2 < s0.len() && s0[j2] == '(' {
                        match args_list_at(s0, j2 + 1) {
                            Option::Some(a) => (r matches Ok(n) && (
                            n matches Node::ParenArgs(root, argv) && (
                            *root matches Node::Identifier(nm2) && nm2@ == name) && nodes_view(
                                argv@,
                            ) == a.0)) && final(self).pos() == a.1,
                            Option::None => r matches Ok(n) ==> (n matches Node::ParenArgs(
                                root,
                                u,
                            ) && (*root matches Node::Identifier(nm2) && nm2@ == name)),
                        }
                    } else {
                        (r matches Ok(n) && (n matches Node::Identifier(nm) && nm@ == name))
                            && final(self).pos() == j2
                    }
                })
            }),
            ({
                let s0 = old(self).text();
                let i0 = old(self).pos();
                (i0 < s0.len() && is_string_terminator_char(s0[i0])) ==> ({
                    let d = run_len(s0, i0 + 1, class_pred(CharClass::NotChar(s0[i0])));
                    let content = s0.subrange(i0 + 1, i0 + 1 + d);
                    let j = i0 + 2 + d;
                    (i0 + 1 + d < s0.len()) ==> ({
                        let j2 = j + run_len(s0, j, class_pred(CharClass::InlineSpace));
                        if j2 < s0.len() && s0[j2] == '(' {
                            match args_list_at(s0, j2 + 1) {
                                Option::Some(a) => (r matches Ok(n) && (
                                n matches Node::ParenArgs(root, argv) && (
                                *root matches Node::String(t2) && t2@ == content)
                                    && nodes_view(argv@) == a.0)) && final(self).pos() == a.1,
                                Option::None => r matches Ok(n) ==> (
                                n matches Node::ParenArgs(root, u) && (
                                *root matches Node::String(t2) && t2@ == content)),
                            }
                        } else {
                            (r matches Ok(n) && (n matches Node::String(t) && t@ == content))
                                && final(self).pos() == j2
                        }
                    })
                })
            }),
            ({
                let s0 = old(self).text();
                let i0 = old(self).pos();
                (i0 < s0.len() && s0[i0] == '(') ==> (match flat_expr_at(s0, i0 + 1) {
                    Option::Some(t) => (t.2 < s0.len() && s0[t.2] == ')') ==> ({
                        let j = t.2 + 1;
                        let j2 = j + run_len(s0, j, class_pred(CharClass::InlineSpace));
                        if j2 < s0.len() && s0[j2] == '(' {
                            match args_list_at(s0, j2 + 1) {
                                Option::Some(a) => (r matches Ok(n) && (
                                n matches Node::ParenArgs(root, argv) && (*root)@
                                    == spec_resolve(t.0, t.1) && nodes_view(argv@) == a.0))
                                    && final(self).pos() == a.1,
                                Option::None => r matches Ok(n) ==> (n matches Node::ParenArgs(
                                    root,
                                    u,
                                ) && (*root)@ == spec_resolve(t.0, t.1)),
                            }
                        } else {
                            (r matches Ok(n) && n@ == spec_resolve(t.0, t.1))
                                && final(self).pos() == j2
                        }
                    }),
                    Option::None => true,
                })
            }),
        decreases self.text().len() - self.pos(), 0int,
    {
        let ch = match self.peek() {
            Ok(c) => c,
            Err(e) => {
                return Err(e);
            },
        };
        let value: Node;
        if class_check(CharClass::Digit, ch) {
            value = match self.read_integer() {
                Ok(v) => v,
                Err(e) => {
                    return Err(e);
                },
            };
            proof {
                assert(node_wf(value@));
            }
        } else if ch == '"' || ch == '\'' {
            value = match self.read_string() {
                Ok(v) => v,
                Err(e) => {
                    return Err(e);
                },
            };
            proof {
                assert(node_wf(value@));
            }
        } else if class_check(CharClass::Letter, ch) {
            proof {
                let s0 = self.text();
                let i0 = self.pos();
                assert(class_pred(CharClass::Ident)(s0[i0]));
                lemma_run_len(s0, i0 + 1, class_pred(CharClass::Ident));
                assert(run_len(s0, i0, class_pred(CharClass::Ident)) == 1 + run_len(
                    s0,
                    i0 + 1,
                    class_pred(CharClass::Ident),
                ));
            }
            value = Node::Identifier(self.read_identifier());
            proof {
                assert(node_wf(value@));
            }
        } else if ch == '(' {
            self.step();
            proof {
                let s0 = old(self).text();
                let i0 = old(self).pos();
                match flat_expr_at(s0, i0 + 1) {
                    Option::Some(t) => {
                        lemma_flat_end(s0, i0 + 1);
                        if t.2 < s0.len() && s0[t.2] == ')' {
                            reveal_strlit(")");
                            assert(")"@.len() == 1);
                            assert(s0.subrange(t.2, t.2 + 1) =~= seq![s0[t.2]]);
                            assert(s0.subrange(t.2, t.2 + 1) =~= ")"@);
                            lemma_run_len(s0, t.2 + 1, class_pred(CharClass::InlineSpace));
                        }
                    },
                    Option::None => {},
                }
            }
            let v = match self.read_expression() {
                Ok(v) => v,
                Err(e) => {
                    return Err(e);
                },
            };
            match self.expect(")") {
                Ok(u) => u,
                Err(e) => {
                    return Err(e);
                },
            };
            value = v;
        } else {
            return Err(ParseError::UnexpectedCharacter(ch));
        }
        // a `(` straight after the value makes it the callee of a call;
        // the skip stops at a line break, which separates statements
        match self.skip_inline_whitespace() {
            Err(_) => {
                return Ok(value);
            },
            Ok(u) => u,
        }
        match self.peek() {
            Ok(c) => {
                if c == '(' {
                    self.step();
                    let args = match self.read_args() {
                        Ok(a) => a,
                        Err(e) => {
                            return Err(e);
                        },
                    };
                    proof {
                        lemma_nodes_view_index(args@);
                        crate::node::lemma_nodes_wf_index(nodes_view(args@));
                        assert forall|i: int| 0 <= i < nodes_view(args@).len() implies node_wf(
                            nodes_view(args@)[i],
                        ) by {
                            assert(node_wf(args@[i]@));
                        }
                        assert(nodes_wf(nodes_view(args@)));
                    }
                    return Ok(Node::ParenArgs(Box::new(value), args));
                }
            },
            Err(_) => {},
        }
        Ok(value)
    }

    /// Reads a comma-separated argument list terminated by `)`. A trailing
    /// comma before `)` is not permitted.
    fn read_args(&mut self) -> (r: Result<Vec<Node>, ParseError>)
        requires
            old(self).wf(),
        ensures
            final(self).wf(),
            final(self).text() == old(self).text(),
            old(self).pos() <= final(self).pos(),
            r matches Ok(args) ==> (forall|i: int|
                0 <= i < args@.len() ==> node_wf((#[trigger] args@[i])@)) && args@.len() >= 1
                && final(self).pos() >= 1 && final(self).text()[final(self).pos() - 1] == ')',
            (match args_list_at(old(self).text(), old(self).pos()) {
                Option::Some(t) => (r matches Ok(args) && nodes_view(args@) == t.0)
                    && final(self).pos() == t.1,
                Option::None => true,
            }),
            ({
                let s0 = old(self).text();
                let j = old(self).pos() + run_len(
                    s0,
                    old(self).pos(),
                    class_pred(CharClass::Space),
                );
                (match flat_expr_at(s0, j) {
                    Option::Some(t) => (t.2 < s0.len() && s0[t.2] != ')' && s0[t.2] != ',')
                        ==> (r matches Err(e) && (e matches ParseError::ExpectedTokens(v)
                        && v@.len() == 2 && v@[0]@ == ","@ && v@[1]@ == ")"@)),
                    Option::None => true,
                })
            }),
        decreases self.text().len() - self.pos(), 2int,
    {
        let ghost s0 = old(self).text();
        let ghost i0 = old(self).pos();
        let ghost j0 = i0 + run_len(s0, i0, class_pred(CharClass::Space));
        let _ = self.skip_whitespace();
        let mut args: Vec<Node> = Vec::new();
        loop
            invariant_except_break
                (match args_list_at(s0, i0) {
                    Option::Some(t) => (match args_tail_at(s0, self.pos()) {
                        Option::Some(rest) => t.0 == nodes_view(args@) + rest.0 && t.1
                            == rest.1,
                        Option::None => false,
                    }),
                    Option::None => true,
                }),
                (match flat_expr_at(s0, j0) {
                    Option::Some(t) => (t.2 < s0.len() && s0[t.2] != ')' && s0[t.2] != ',')
                        ==> args@.len() == 0 && self.pos() == j0,
                    Option::None => true,
                }),
            invariant
                self.wf(),
                self.text() == old(self).text(),
                s0 == old(self).text(),
                i0 == old(self).pos(),
                j0 == i0 + run_len(s0, i0, class_pred(CharClass::Space)),
                old(self).pos() <= self.pos(),
                forall|i: int| 0 <= i < args@.len() ==> node_wf((#[trigger] args@[i])@),
            decreases self.text().len() - self.pos(), 2int,
        {
            let ghost head = self.pos();
            let ghost pre_args = args@;
            let e = match self.read_expression() {
                Ok(n) => n,
                Err(err) => {
                    return Err(err);
                },
            };
            args.push(e);
            proof {
                lemma_nodes_view_index(pre_args);
                lemma_nodes_view_index(args@);
                assert forall|q: int| 0 <= q < args@.len() implies nodes_view(args@)[q]
                    == (nodes_view(pre_args) + seq![e@])[q] by {
                    if q < pre_args.len() {
                        assert(args@[q] == pre_args[q]);
                    } else {
                        assert(args@[q] == e);
                    }
                }
                assert(nodes_view(args@) =~= nodes_view(pre_args) + seq![e@]);
            }
            match self.next() {
                Err(err) => {
                    return Err(err);
                },
                Ok(c) => {
                    if c == ')' {
                        proof {
                            match args_list_at(s0, i0) {
                                Option::Some(t) => {
                                    match args_tail_at(s0, head) {
                                        Option::Some(rest) => {
                                            assert(rest.0 =~= seq![e@]);
                                            assert(nodes_view(args@) =~= t.0);
                                        },
                                        Option::None => {},
                                    }
                                },
                                Option::None => {},
                            }
                        }
                        return Ok(args);
                    } else if c == ',' {
                    } else {
                        let mut expected: Vec<String> = Vec::new();
                        expected.push(",".to_owned());
                        expected.push(")".to_owned());
                        proof {
                            reveal_strlit(",");
                            reveal_strlit(")");
                            assert(expected@.len() == 2);
                            assert(expected@[0]@ == ","@);
                            assert(expected@[1]@ == ")"@);
                        }
                        return Err(ParseError::ExpectedTokens(expected));
                    }
                },
            }
            let _ = self.skip_whitespace();
            proof {
                match args_list_at(s0, i0) {
                    Option::Some(t) => {
                        match args_tail_at(s0, head) {
                            Option::Some(rest) => {
                                match args_tail_at(s0, self.pos()) {
                                    Option::Some(restp) => {
                                        assert(rest.0 =~= seq![e@] + restp.0);
                                        assert(nodes_view(args@) + restp.0 =~= nodes_view(
                                            pre_args,
                                        ) + rest.0);
                                        assert(t.0 =~= nodes_view(args@) + restp.0);
                                    },
                                    Option::None => {},
                                }
                            },
                            Option::None => {},
                        }
                    },
                    Option::None => {},
                }
            }
        }
    }

    /// Reads a flat alternating sequence of values and binary operators,
    /// then contracts it into a tree in priority order. An operator token
    /// that names a grammar-only marker is an `InvalidOperator` here.
    #[verifier::rlimit(60)]
    fn read_expression(&mut self) -> (r: Result<Node, ParseError>)
        requires
            old(self).wf(),
        ensures
            final(self).wf(),
            final(self).text() == old(self).text(),
            old(self).pos() <= final(self).pos(),
            r matches Ok(n) ==> node_wf(n@) && old(self).pos() < final(self).pos(),
            (match flat_expr_at(old(self).text(), old(self).pos()) {
                Option::Some(t) => (r matches Ok(n) && n@ == spec_resolve(t.0, t.1))
                    && final(self).pos() == t.2,
                Option::None => true,
            }),
        decreases self.text().len() - self.pos(), 1int,
    {
        let ghost s0 = old(self).text();
        let ghost i0 = old(self).pos();
        let mut values: Vec<Node> = Vec::new();
        let mut operators: Vec<Operator> = Vec::new();
        proof {
            crate::node::lemma_nodes_view_index(values@);
        }
        loop
            invariant_except_break
                values@.len() == operators@.len(),
                (match flat_expr_at(s0, i0) {
                    Option::Some(t) => (match flat_expr_at(self.text(), self.pos()) {
                        Option::Some(rest) => t.0 == nodes_view(values@) + rest.0 && t.1
                            == operators@ + rest.1 && t.2 == rest.2,
                        Option::None => false,
                    }),
                    Option::None => true,
                }),
            invariant
                self.wf(),
                self.text() == old(self).text(),
                s0 == old(self).text(),
                i0 == old(self).pos(),
                old(self).pos() <= self.pos(),
                values@.len() > 0 ==> old(self).pos() < self.pos(),
                forall|k: int| 0 <= k < values@.len() ==> node_wf((#[trigger] values@[k])@),
                forall|k: int| 0 <= k < operators@.len() ==> (
                #[trigger] operators@[k]).spec_resolvable(),
            ensures
                values@.len() == operators@.len() + 1,
                self.wf(),
                self.text() == old(self).text(),
                old(self).pos() < self.pos(),
                forall|k: int| 0 <= k < values@.len() ==> node_wf((#[trigger] values@[k])@),
                forall|k: int| 0 <= k < operators@.len() ==> (
                #[trigger] operators@[k]).spec_resolvable(),
                (match flat_expr_at(s0, i0) {
                    Option::Some(t) => t.0 == nodes_view(values@) && t.1 == operators@ && t.2
                        == self.pos(),
                    Option::None => true,
                }),
            decreases self.text().len() - self.pos(), 1int,
        {
            let ghost head = self.pos();
            let ghost have_t = flat_expr_at(s0, i0) is Some;
            let ghost rest = if flat_expr_at(s0, i0) is Some {
                flat_expr_at(self.text(), head)
            } else {
                Option::None
            };
            let ghost pre_values = values@;
            let ghost pre_ops = operators@;
            proof {
                if have_t {
                    match rest {
                        Option::Some(rr) => {
                            match token_value_at(self.text(), head) {
                                Option::Some((tv, j)) => {
                                    let c = self.text()[head];
                                    if is_digit_char(c) {
                                        lemma_run_len(
                                            self.text(),
                                            head,
                                            class_pred(CharClass::Digit),
                                        );
                                    } else if is_string_terminator_char(c) {
                                        lemma_run_len(
                                            self.text(),
                                            head + 1,
                                            class_pred(CharClass::NotChar(c)),
                                        );
                                    } else {
                                        lemma_run_len(
                                            self.text(),
                                            head,
                                            class_pred(CharClass::Ident),
                                        );
                                    }
                                    lemma_run_len(
                                        self.text(),
                                        j,
                                        class_pred(CharClass::InlineSpace),
                                    );
                                },
                                Option::None => {},
                            }
                        },
                        Option::None => {},
                    }
                }
            }
            let v = match self.read_value() {
                Ok(n) => n,
                Err(e) => {
                    return Err(e);
                },
            };
            values.push(v);
            proof {
                crate::node::lemma_nodes_view_index(pre_values);
                crate::node::lemma_nodes_view_index(values@);
                if have_t && rest is Some {
                    let tok = token_value_at(s0, head);
                    assert(v@ == (tok->0).0);
                    assert(values@ == pre_values.push(v));
                    assert forall|q: int| 0 <= q < values@.len() implies nodes_view(values@)[q]
                        == (nodes_view(pre_values) + seq![v@])[q] by {
                        if q < pre_values.len() {
                            assert(values@[q] == pre_values[q]);
                        } else {
                            assert(values@[q] == v);
                        }
                    }
                    assert(nodes_view(values@) =~= nodes_view(pre_values) + seq![v@]);
                }
            }
            match self.skip_inline_whitespace() {
                Err(_) => {
                    proof {
                        if have_t && rest is Some {
                            let rr = rest->0;
                            assert(rr.0 =~= seq![v@]);
                            assert(nodes_view(values@) =~= nodes_view(pre_values) + rr.0);
                            assert(operators@ =~= pre_ops + rr.1);
                        }
                    }
                    break;
                },
                Ok(u) => u,
            }
            let ch = match self.peek() {
                Ok(c) => c,
                Err(e) => {
                    return Err(e);
                },
            };
            if is_expr_terminator(ch) {
                proof {
                    if have_t && rest is Some {
                        let rr = rest->0;
                        assert(rr.0 =~= seq![v@]);
                        assert(nodes_view(values@) =~= nodes_view(pre_values) + rr.0);
                        assert(operators@ =~= pre_ops + rr.1);
                    }
                }
                break;
            } else if class_check(CharClass::Op, ch) {
                let op = match self.read_operator() {
                    Ok(o) => o,
                    Err(e) => {
                        return Err(e);
                    },
                };
                match self.skip_whitespace() {
                    Err(e) => {
                        return Err(e);
                    },
                    Ok(u) => u,
                }
                if op.level() > 6 {
                    // a grammar-only marker cannot join two values
                    let mut t = String::new();
                    match op {
                        Operator::Paren => t.push('('),
                        _ => t.push('.'),
                    }
                    return Err(ParseError::InvalidOperator(t));
                }
                operators.push(op);
                proof {
                    if have_t && rest is Some {
                        let t0 = flat_expr_at(s0, i0)->0;
                        let rr = rest->0;
                        let restp = flat_expr_at(self.text(), self.pos());
                        assert(restp is Some);
                        let rp = restp->0;
                        assert(rr.0 =~= seq![v@] + rp.0);
                        assert(rr.1 =~= seq![op] + rp.1);
                        assert(t0.0 =~= nodes_view(pre_values) + rr.0);
                        assert(nodes_view(values@) + rp.0 =~= nodes_view(pre_values) + rr.0);
                        assert(t0.0 =~= nodes_view(values@) + rp.0);
                        assert(operators@ + rp.1 =~= pre_ops + rr.1);
                        assert(t0.1 =~= operators@ + rp.1);
                    }
                }
            } else {
                proof {
                    if have_t && rest is Some {
                        let rr = rest->0;
                        assert(rr.0 =~= seq![v@]);
                        assert(nodes_view(values@) =~= nodes_view(pre_values) + rr.0);
                        assert(operators@ =~= pre_ops + rr.1);
                    }
                }
                break;
            }
        }
        Ok(resolve_operators(values, operators))
    }

    /// Reads the remainder of a `let` statement: an identifier, `=`, and
    /// the defining expression.
    fn read_let(&mut self) -> (r: Result<Node, ParseError>)
        requires
            old(self).wf(),
        ensures
            final(self).wf(),
            final(self).text() == old(self).text(),
            old(self).pos() <= final(self).pos(),
            r matches Ok(n) ==> node_wf(n@) && (n@ matches NodeV::Statement(
                StatementV::SetVariable(..),
            )),
            (match let_tail_at(old(self).text(), old(self).pos()) {
                Option::Some(t) => (r matches Ok(n) && n@ == t.0) && final(self).pos() == t.1,
                Option::None => true,
            }),
        decreases self.text().len() - self.pos(), 3int,
    {
        proof {
            let s0 = old(self).text();
            let i0 = old(self).pos();
            if let_tail_at(s0, i0) is Some {
                reveal_strlit("=");
                lemma_run_len(s0, i0, class_pred(CharClass::Ident));
                let dn = run_len(s0, i0, class_pred(CharClass::Ident));
                lemma_run_len(s0, i0 + dn, class_pred(CharClass::Space));
                let q = i0 + dn + run_len(s0, i0 + dn, class_pred(CharClass::Space));
                assert(s0[q] == '=');
                assert(s0.subrange(q, q + 1) =~= seq![s0[q]]);
                assert("="@.len() == 1);
                assert(s0.subrange(q, q + 1) =~= "="@);
                lemma_run_len(s0, q + 1, class_pred(CharClass::Space));
            }
        }
        let ident = self.read_identifier();
        match self.skip_whitespace() {
            Err(e) => {
                return Err(e);
            },
            Ok(u) => u,
        }
        match self.expect("=") {
            Err(e) => {
                return Err(e);
            },
            Ok(u) => u,
        }
        match self.skip_whitespace() {
            Err(e) => {
                return Err(e);
            },
            Ok(u) => u,
        }
        let value = match self.read_expression() {
            Ok(n) => n,
            Err(e) => {
                return Err(e);
            },
        };
        let ghost identv = ident@;
        let ghost valuev = value@;
        let st = Statement::SetVariable(ident, Box::new(value));
        proof {
            assert(st@ =~= StatementV::SetVariable(identv, Box::new(valuev)));
            assert(statement_wf(st@));
        }
        let ghost stv = st@;
        let r = Node::Statement(st);
        proof {
            assert(r@ =~= NodeV::Statement(stv));
            assert(node_wf(r@));
        }
        Ok(r)
    }

    /// Reads the remainder of an `if` statement: the condition, the
    /// mandatory block, and an optional `else` block or `elif` chain.
    fn read_if(&mut self) -> (r: Result<Node, ParseError>)
        requires
            old(self).wf(),
        ensures
            final(self).wf(),
            final(self).text() == old(self).text(),
            old(self).pos() <= final(self).pos(),
            r matches Ok(n) ==> node_wf(n@) && (n@ matches NodeV::Statement(StatementV::If(..)))
                && old(self).pos() < final(self).pos(),
        decreases self.text().len() - self.pos(), 4int,
    {
        let condition = match self.read_expression() {
            Ok(n) => n,
            Err(e) => {
                return Err(e);
            },
        };
        let block = match self.read_block(true) {
            Ok(n) => n,
            Err(e) => {
                return Err(e);
            },
        };
        let ext: Option<Box<Node>>;
        match self.peek_keyword() {
            Option::Some(Keyword::Else) => {
                let _ = self.read_keyword();
                let b = match self.read_block(true) {
                    Ok(n) => n,
                    Err(e) => {
                        return Err(e);
                    },
                };
                ext = Option::Some(Box::new(b));
            },
            Option::Some(Keyword::Elif) => {
                let _ = self.read_keyword();
                let n = match self.read_if() {
                    Ok(n) => n,
                    Err(e) => {
                        return Err(e);
                    },
                };
                ext = Option::Some(Box::new(n));
            },
            _ => {
                ext = Option::None;
            },
        }
        let ghost extv = match &ext {
            Option::Some(e) => Option::Some(Box::new((**e)@)),
            Option::None => Option::None,
        };
        let ghost condv = condition@;
        let ghost blockv = block@;
        let st = Statement::If(Box::new(condition), Box::new(block), ext);
        proof {
            assert(st@ =~= StatementV::If(Box::new(condv), Box::new(blockv), extv));
            assert(statement_wf(st@));
        }
        let ghost stv = st@;
        let r = Node::Statement(st);
        proof {
            assert(r@ =~= NodeV::Statement(stv));
            assert(node_wf(r@));
        }
        Ok(r)
    }

    /// Reads one statement: a keyword rule where a keyword stands at the
    /// cursor, otherwise an expression.
    fn read_statement(&mut self) -> (r: Result<Node, ParseError>)
        requires
            old(self).wf(),
        ensures
            final(self).wf(),
            final(self).text() == old(self).text(),
            old(self).pos() <= final(self).pos(),
            r matches Ok(n) ==> node_wf(n@) && old(self).pos() < final(self).pos(),
            (match simple_stmt_at(old(self).text(), old(self).pos()) {
                Option::Some(t) => (r matches Ok(n) && n@ == t.0) && final(self).pos() == t.1,
                Option::None => true,
            }),
        decreases self.text().len() - self.pos(), 5int,
    {
        match self.read_keyword() {
            Option::Some(Keyword::Let) => self.read_let(),
            Option::Some(Keyword::If) => self.read_if(),
            Option::Some(kw) => Err(ParseError::UnexpectedKeyword(kw)),
            Option::None => self.read_expression(),
        }
    }

    /// Reads a block: with `inner`, a brace-delimited statement list;
    /// without, the whole remaining top level. Statements are separated by
    /// `;` or a line break.
    #[verifier::rlimit(80)]
    fn read_block(&mut self, inner: bool) -> (r: Result<Node, ParseError>)
        requires
            old(self).wf(),
        ensures
            final(self).wf(),
            final(self).text() == old(self).text(),
            old(self).pos() <= final(self).pos(),
            r matches Ok(n) ==> node_wf(n@) && (n@ matches NodeV::Block(..)),
            (match block_at(old(self).text(), old(self).pos(), inner) {
                Option::Some(t) => (r matches Ok(n) && (n@ matches NodeV::Block(b)
                    && b.statements == t.0)) && final(self).pos() == t.1 + run_len(
                    old(self).text(),
                    t.1,
                    class_pred(CharClass::InlineSpace),
                ),
                Option::None => true,
            }),
            (inner && old(self).pos() < old(self).text().len() && old(self).text()[old(
                self,
            ).pos()] != '{') ==> (r matches Err(e) && (e matches ParseError::ExpectedToken(t)
                && t@ == "{"@)),
            ({
                let s0 = old(self).text();
                let b0 = old(self).pos() + (if inner {
                    1int
                } else {
                    0int
                });
                let j = b0 + run_len(s0, b0, class_pred(CharClass::Space));
                ((inner ==> (old(self).pos() < s0.len() && s0[old(self).pos()] == '{')) && j
                    < s0.len()) ==> (match simple_stmt_at(s0, j) {
                    Option::Some(t) => (t.1 < s0.len() && s0[t.1] != ';' && s0[t.1] != '\n')
                        ==> (r matches Err(e) && (e matches ParseError::UnexpectedCharacter(c)
                        && c == s0[t.1])),
                    Option::None => true,
                })
            }),
        decreases self.text().len() - self.pos(), 6int,
    {
        let ghost s0 = old(self).text();
        let ghost i0 = old(self).pos();
        proof {
            if inner && i0 < s0.len() {
                reveal_strlit("{");
                assert("{"@.len() == 1);
                assert(s0.subrange(i0, i0 + 1) =~= seq![s0[i0]]);
                assert("{"@[0] == '{');
                if s0[i0] == '{' {
                    assert(s0.subrange(i0, i0 + 1) =~= "{"@);
                } else {
                    assert(s0.subrange(i0, i0 + 1)[0] != "{"@[0]);
                    assert(s0.subrange(i0, i0 + 1) != "{"@);
                }
            }
        }
        if inner {
            match self.expect("{") {
                Err(e) => {
                    return Err(e);
                },
                Ok(u) => u,
            }
        }
        let ghost body0 = self.pos();
        let ghost jb = body0 + run_len(s0, body0, class_pred(CharClass::Space));
        let mut nodes: Vec<Node> = Vec::new();
        let keep_reading = match self.skip_whitespace() {
            Ok(_) => true,
            Err(_) => false,
        };
        if keep_reading {
            loop
                invariant_except_break
                    (jb < s0.len() && (match simple_stmt_at(s0, jb) {
                        Option::Some(t) => t.1 < s0.len() && s0[t.1] != ';' && s0[t.1] != '\n',
                        Option::None => false,
                    })) ==> nodes@.len() == 0 && self.pos() == jb,
                    (match block_at(s0, i0, inner) {
                        Option::Some(t) => (match stmt_list_at(s0, self.pos(), inner) {
                            Option::Some(rest) => t.0 == nodes_view(nodes@) + rest.0 && t.1
                                == rest.1,
                            Option::None => false,
                        }),
                        Option::None => true,
                    }),
                invariant
                    self.wf(),
                    self.text() == old(self).text(),
                    s0 == old(self).text(),
                    i0 == old(self).pos(),
                    old(self).pos() <= self.pos(),
                    forall|i: int| 0 <= i < nodes@.len() ==> node_wf((#[trigger] nodes@[i])@),
                    !(inner && i0 < s0.len() && s0[i0] != '{'),
                    inner ==> body0 == i0 + 1,
                    !inner ==> body0 == i0,
                    jb == body0 + run_len(s0, body0, class_pred(CharClass::Space)),
                ensures
                    self.wf(),
                    self.text() == old(self).text(),
                    old(self).pos() <= self.pos(),
                    forall|i: int| 0 <= i < nodes@.len() ==> node_wf((#[trigger] nodes@[i])@),
                    (match block_at(s0, i0, inner) {
                        Option::Some(t) => nodes_view(nodes@) == t.0 && self.pos() == t.1,
                        Option::None => true,
                    }),
                    !(jb < s0.len() && (match simple_stmt_at(s0, jb) {
                        Option::Some(t) => t.1 < s0.len() && s0[t.1] != ';' && s0[t.1] != '\n',
                        Option::None => false,
                    })),
                decreases self.text().len() - self.pos(), 6int,
            {
                let ghost head = self.pos();
                let ghost pre_nodes = nodes@;
                let st = match self.read_statement() {
                    Ok(n) => n,
                    Err(e) => {
                        return Err(e);
                    },
                };
                nodes.push(st);
                proof {
                    lemma_nodes_view_index(pre_nodes);
                    lemma_nodes_view_index(nodes@);
                    assert forall|q: int| 0 <= q < nodes@.len() implies nodes_view(nodes@)[q]
                        == (nodes_view(pre_nodes) + seq![st@])[q] by {
                        if q < pre_nodes.len() {
                            assert(nodes@[q] == pre_nodes[q]);
                        } else {
                            assert(nodes@[q] == st);
                        }
                    }
                    assert(nodes_view(nodes@) =~= nodes_view(pre_nodes) + seq![st@]);
                }
                match self.next() {
                    Err(_) => {
                        proof {
                            match block_at(s0, i0, inner) {
                                Option::Some(t) => {
                                    match stmt_list_at(s0, head, inner) {
                                        Option::Some(rest) => {
                                            assert(rest.0 =~= seq![st@]);
                                            assert(nodes_view(nodes@) =~= t.0);
                                        },
                                        Option::None => {},
                                    }
                                },
                                Option::None => {},
                            }
                        }
                        break;
                    },
                    Ok(c) => {
                        if c == '\n' {
                            self.mark_line_break();
                        } else if c == ';' {
                        } else {
                            return Err(ParseError::UnexpectedCharacter(c));
                        }
                    },
                }
                match self.skip_whitespace() {
                    Err(_) => {
                        proof {
                            match block_at(s0, i0, inner) {
                                Option::Some(t) => {
                                    match stmt_list_at(s0, head, inner) {
                                        Option::Some(rest) => {
                                            assert(rest.0 =~= seq![st@]);
                                            assert(nodes_view(nodes@) =~= t.0);
                                        },
                                        Option::None => {},
                                    }
                                },
                                Option::None => {},
                            }
                        }
                        break;
                    },
                    Ok(u) => u,
                }
                if inner {
                    match self.peek() {
                        Ok(c) => {
                            if c == '}' {
                                self.step();
                                proof {
                                    match block_at(s0, i0, inner) {
                                        Option::Some(t) => {
                                            match stmt_list_at(s0, head, inner) {
                                                Option::Some(rest) => {
                                                    assert(rest.0 =~= seq![st@]);
                                                    assert(nodes_view(nodes@) =~= t.0);
                                                },
                                                Option::None => {},
                                            }
                                        },
                                        Option::None => {},
                                    }
                                }
                                break;
                            }
                        },
                        Err(_) => {},
                    }
                }
                proof {
                    match block_at(s0, i0, inner) {
                        Option::Some(t) => {
                            match stmt_list_at(s0, head, inner) {
                                Option::Some(rest) => {
                                    match stmt_list_at(s0, self.pos(), inner) {
                                        Option::Some(restp) => {
                                            assert(rest.0 =~= seq![st@] + restp.0);
                                            assert(nodes_view(nodes@) + restp.0 =~= nodes_view(
                                                pre_nodes,
                                            ) + rest.0);
                                            assert(t.0 =~= nodes_view(nodes@) + restp.0);
                                        },
                                        Option::None => {},
                                    }
                                },
                                Option::None => {},
                            }
                        },
                        Option::None => {},
                    }
                }
            }
        }
        let _ = self.skip_inline_whitespace();
        proof {
            lemma_nodes_view_index(nodes@);
            match block_at(s0, i0, inner) {
                Option::Some(t) => {
                    if !keep_reading {
                        assert(nodes@.len() == 0);
                        assert(t.0 =~= nodes_view(nodes@));
                    }
                },
                Option::None => {},
            }
            crate::node::lemma_nodes_wf_index(nodes_view(nodes@));
            assert forall|i: int| 0 <= i < nodes_view(nodes@).len() implies node_wf(
                nodes_view(nodes@)[i],
            ) by {
                assert(node_wf(nodes@[i]@));
            }
            assert(nodes_wf(nodes_view(nodes@)));
        }
        let ghost nodesv = nodes@;
        let blk = Block::new(nodes);
        proof {
            assert(blk@ =~= BlockV { statements: nodes_view(nodesv) });
            assert(block_wf(blk@));
        }
        let ghost blkv = blk@;
        let r = Node::Block(blk);
        proof {
            assert(r@ =~= NodeV::Block(blkv));
            assert(node_wf(r@));
        }
        Ok(r)
    }

    /// Parses the whole text as one top-level block; any character no rule
    /// consumed fails the parse.
    pub fn parse(&mut self) -> (r: Result<Node, ParseError>)
        requires
            old(self).wf(),
        ensures
            final(self).wf(),
            final(self).text() == old(self).text(),
            r matches Ok(n) ==> node_wf(n@) && (n@ matches NodeV::Block(..)) && final(self).pos()
                == final(self).text().len(),
            run_len(old(self).text(), old(self).pos(), class_pred(CharClass::Space)) == old(
                self,
            ).text().len() - old(self).pos() ==> (r matches Ok(n) && (n@ matches NodeV::Block(b)
                && b.statements.len() == 0)),
            (match program_at(old(self).text()) {
                Option::Some(vs) => old(self).pos() == 0 ==> (r matches Ok(n) && (
                n@ matches NodeV::Block(b) && b.statements == vs)),
                Option::None => true,
            }),
    {
        let block = match self.read_block(false) {
            Ok(n) => n,
            Err(e) => {
                return Err(e);
            },
        };
        if self.i < self.chars.len() {
            return Err(ParseError::UnexpectedCharacter(self.chars[self.i]));
        }
        Ok(block)
    }
}

// ----------------------------------------------------------------------------
// laws of precedence resolution
// ----------------------------------------------------------------------------

/// Multiplication is contracted before addition under the canonical level
/// order, wherever the two stand: a flat `v0 + v1 * v2` resolves with the
/// addition at the root and the multiplication beneath it.
pub proof fn lemma_mul_binds_before_add(v0: NodeV, v1: NodeV, v2: NodeV)
    ensures
        spec_resolve(seq![v0, v1, v2], seq![Operator::Add, Operator::Mul]) == NodeV::BinaryOp(
            Operator::Add,
            Box::new(v0),
            Box::new(NodeV::BinaryOp(Operator::Mul, Box::new(v1), Box::new(v2))),
        ),
{
    let vs = seq![v0, v1, v2];
    let ops = seq![Operator::Add, Operator::Mul];
    assert(ops.drop_first() =~= seq![Operator::Mul]);
    assert(pick_index(seq![Operator::Mul]) == 0);
    assert(pick_index(ops) == 1);
    let mul = NodeV::BinaryOp(Operator::Mul, Box::new(v1), Box::new(v2));
    let vs2 = contract_values(vs, ops, 1);
    assert(vs2 =~= seq![v0, mul]);
    let ops2 = ops.remove(1);
    assert(ops2 =~= seq![Operator::Add]);
    assert(pick_index(ops2) == 0);
    let add = NodeV::BinaryOp(Operator::Add, Box::new(v0), Box::new(mul));
    let vs3 = contract_values(vs2, ops2, 0);
    assert(vs3 =~= seq![add]);
    assert(ops2.remove(0) =~= Seq::<Operator>::empty());
    assert(spec_resolve(vs3, ops2.remove(0)) == add);
    assert(spec_resolve(vs2, ops2) == add);
    assert(spec_resolve(vs, ops) == add);
}

/// A single operator joins its two operand values directly, so a
/// parenthesised group, already one value, becomes one operand of it.
pub proof fn lemma_single_operator_groups(v0: NodeV, v1: NodeV, op: Operator)
    ensures
        spec_resolve(seq![v0, v1], seq![op]) == NodeV::BinaryOp(op, Box::new(v0), Box::new(v1)),
{
    let vs = seq![v0, v1];
    let ops = seq![op];
    assert(pick_index(ops) == 0);
    let r = NodeV::BinaryOp(op, Box::new(v0), Box::new(v1));
    let vs2 = contract_values(vs, ops, 0);
    assert(vs2 =~= seq![r]);
    assert(ops.remove(0) =~= Seq::<Operator>::empty());
    assert(spec_resolve(vs2, ops.remove(0)) == r);
    assert(spec_resolve(vs, ops) == r);
}

} // verus!
