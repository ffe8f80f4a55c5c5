//! No-token-merge. `fuses(left, right)` is true iff emitting `left` and `right`
//! with NO space between them would re-lex into a DIFFERENT token sequence. The
//! emitter must keep a space wherever `fuses` is true. `true` = "must keep
//! spaced"; `false` = "positively certified safe to abut".

use vstd::prelude::*;

verus! {

/// Lexical classes of an emitted token, lifted from the grammar's fixed-vs-greedy
/// token structure.
#[derive(Clone, Copy, Debug, PartialEq, Eq, Structural)]
pub enum Class {
    /// identifier / variable — maximal-munch word token
    Ident,
    /// number — maximal-munch word token
    Number,
    /// `not` / `#show` / … — lexes into identifier chars
    Keyword,
    /// fixed-length term operator: + - * / \ ** .. ^ ? & ~
    TermOp,
    /// greedy maximal-munch theory operator run
    TheoryOp,
    /// = != < > <= >= — fixed token
    Relation,
    /// the external `:` token (forms the necks :- / :~)
    Colon,
    /// ( ) { } [ ] , ; | @ and the statement `.` — non-extensible
    HardPunct,
}

/// The minimal facet of an emitted token `fuses` needs: its lexical class plus
/// the literal text.
#[derive(Clone, Copy, Debug, PartialEq, Eq)]
pub struct Tok<'a> {
    pub class: Class,
    pub text: &'a str,
}

impl<'a> Tok<'a> {
    /// An identifier token.
    pub fn ident(t: &'a str) -> (r: Self)
        ensures r.class == Class::Ident, r.text == t,
    {
        Tok { class: Class::Ident, text: t }
    }

    /// A number token.
    pub fn number(t: &'a str) -> (r: Self)
        ensures r.class == Class::Number, r.text == t,
    {
        Tok { class: Class::Number, text: t }
    }

    /// A keyword token.
    pub fn keyword(t: &'a str) -> (r: Self)
        ensures r.class == Class::Keyword, r.text == t,
    {
        Tok { class: Class::Keyword, text: t }
    }

    /// A fixed term-operator token.
    pub fn op(t: &'a str) -> (r: Self)
        ensures r.class == Class::TermOp, r.text == t,
    {
        Tok { class: Class::TermOp, text: t }
    }

    /// A greedy theory-operator token.
    pub fn theory_op(t: &'a str) -> (r: Self)
        ensures r.class == Class::TheoryOp, r.text == t,
    {
        Tok { class: Class::TheoryOp, text: t }
    }

    /// A relation token.
    pub fn relation(t: &'a str) -> (r: Self)
        ensures r.class == Class::Relation, r.text == t,
    {
        Tok { class: Class::Relation, text: t }
    }

    /// The external colon token.
    pub fn colon() -> (r: Self)
        ensures r.class == Class::Colon, r.text@ == seq![':'],
    {
        let t = ":";
        proof { reveal_strlit(":"); }
        Tok { class: Class::Colon, text: t }
    }

    /// The `(` punctuation token.
    pub fn lparen() -> (r: Self)
        ensures r.class == Class::HardPunct, r.text@ == seq!['('],
    {
        let t = "(";
        proof { reveal_strlit("("); }
        Tok { class: Class::HardPunct, text: t }
    }

    /// The `,` punctuation token.
    pub fn comma() -> (r: Self)
        ensures r.class == Class::HardPunct, r.text@ == seq![','],
    {
        let t = ",";
        proof { reveal_strlit(","); }
        Tok { class: Class::HardPunct, text: t }
    }
}

/// The character class a `theory_operator` greedily munches.
pub open spec fn is_theory_op_char_spec(c: char) -> bool {
    c == '/' || c == '!' || c == '<' || c == '=' || c == '>' || c == '+' || c == '-'
        || c == '*' || c == '\\' || c == '?' || c == '&' || c == '@' || c == '|'
        || c == ':' || c == ';' || c == '~' || c == '^' || c == '.'
}

/// Whether a class is a maximal-munch word class.
pub open spec fn is_word_class(c: Class) -> bool {
    c == Class::Ident || c == Class::Number || c == Class::Keyword
}

/// The fusion relation over two tokens given by class and text.
pub open spec fn fuses_spec(lc: Class, lt: Seq<char>, rc: Class, rt: Seq<char>) -> bool {
    if lc == Class::TheoryOp {
        rt.len() == 0 || is_theory_op_char_spec(rt[0])
    } else if rc == Class::TheoryOp {
        lt.len() == 0 || is_theory_op_char_spec(lt[lt.len() - 1])
    } else if is_word_class(lc) && is_word_class(rc) {
        true
    } else if lc == Class::TermOp && rc == Class::TermOp {
        lt == seq!['*'] && rt.len() > 0 && rt[0] == '*'
    } else if lc == Class::Colon && rc == Class::TermOp {
        rt == seq!['-'] || rt == seq!['~']
    } else {
        false
    }
}

/// Whether `c` is in the greedy theory-operator munch set.
pub fn is_theory_op_char(c: char) -> (r: bool)
    ensures
        r == is_theory_op_char_spec(c),
{
    c == '/' || c == '!' || c == '<' || c == '=' || c == '>' || c == '+' || c == '-'
        || c == '*' || c == '\\' || c == '?' || c == '&' || c == '@' || c == '|'
        || c == ':' || c == ';' || c == '~' || c == '^' || c == '.'
}

fn is_word(c: Class) -> (r: bool)
    ensures
        r == is_word_class(c),
{
    match c {
        Class::Ident | Class::Number | Class::Keyword => true,
        _ => false,
    }
}

/// Whether `s` is exactly the one character `c`.
fn is_single(s: &str, c: char) -> (r: bool)
    ensures
        r == (s@ == seq![c]),
{
    let n = s.unicode_len();
    if n != 1 {
        assert(s@.len() != 1);
        assert(s@ != seq![c]);
        return false;
    }
    let first = s.get_char(0);
    if first == c {
        assert(s@ =~= seq![c]);
        true
    } else {
        assert(s@[0] != seq![c][0]);
        false
    }
}

/// True iff `left` and `right` abutted (no space) would re-lex into a token
/// sequence other than `[left, right]` — "must keep spaced".
pub fn fuses(left: Tok, right: Tok) -> (r: bool)
    ensures
        r == fuses_spec(left.class, left.text@, right.class, right.text@),
{
    if left.class == Class::TheoryOp {
        let n = right.text.unicode_len();
        if n == 0 {
            true
        } else {
            is_theory_op_char(right.text.get_char(0))
        }
    } else if right.class == Class::TheoryOp {
        let n = left.text.unicode_len();
        if n == 0 {
            true
        } else {
            is_theory_op_char(left.text.get_char(n - 1))
        }
    } else if is_word(left.class) && is_word(right.class) {
        true
    } else if left.class == Class::TermOp && right.class == Class::TermOp {
        if !is_single(left.text, '*') {
            false
        } else {
            let n = right.text.unicode_len();
            n > 0 && right.text.get_char(0) == '*'
        }
    } else if left.class == Class::Colon && right.class == Class::TermOp {
        is_single(right.text, '-') || is_single(right.text, '~')
    } else {
        false
    }
}

} // verus!
