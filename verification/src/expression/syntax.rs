//! The surface syntaxes an expression can be spelled in.
//!
//! A syntax fixes which spellings its text form accepts when parsed, which spellings it emits when
//! displayed, and the precedence that binds them. It selects no semantics: underneath, every
//! expression is the same reverse-Polish token stream.
use super::error::{reports_input, ParseBoolExprError};
use super::parser::{parse_tokens, parsed, SyntaxKind};
use super::rpn::{toks_view, wf_program, Token};
use vstd::prelude::*;

verus! {

/// The surface spellings and binding tightnesses of one syntax.
///
/// NOT is given as a prefix/suffix pair: a prefix form leaves the suffix empty and a postfix form
/// leaves the prefix empty. The `prec_*` fields are binding-tightness levels, highest binds tightest.
pub struct SyntaxSpec {
    /// Spelling of AND, as an infix operator.
    pub and: &'static str,
    /// Spelling of OR, as an infix operator.
    pub or: &'static str,
    /// Spelling of XOR, as an infix operator.
    pub xor: &'static str,
    /// Text emitted before NOT's operand.
    pub not_prefix: &'static str,
    /// Text emitted after NOT's operand.
    pub not_suffix: &'static str,
    /// Spelling of the constant `true`.
    pub one: &'static str,
    /// Spelling of the constant `false`.
    pub zero: &'static str,
    /// Binding tightness of a variable or constant.
    pub prec_atom: u8,
    /// Binding tightness of NOT.
    pub prec_not: u8,
    /// Binding tightness of AND.
    pub prec_and: u8,
    /// Binding tightness of XOR.
    pub prec_xor: u8,
    /// Binding tightness of OR.
    pub prec_or: u8,
}

/// A surface syntax for [`BoolExpr`](super::BoolExpr).
pub trait Syntax: Sized + Copy {
    /// The spellings and precedences of this syntax.
    spec fn spelling() -> SyntaxSpec;

    /// The spellings and precedences of this syntax.
    fn syntax_spec() -> (r: SyntaxSpec)
        ensures
            r == Self::spelling(),
    ;

    /// The grammar this syntax parses with.
    spec fn grammar() -> SyntaxKind;

    /// Parse text in this syntax into a reverse-Polish token program: the program the grammar
    /// reads from the text, or an error when it reads none.
    fn parse_tokens(input: &str) -> (r: Result<Vec<Token>, ParseBoolExprError>)
        ensures
            match parsed(Self::grammar(), input@) {
                Some(t) => r matches Ok(v) && toks_view(v@) == t,
                None => r is Err,
            },
            r matches Ok(t) ==> wf_program(toks_view(t@)),
            r matches Err(e) ==> reports_input(e, input@),
    ;
}

/// The crate's own syntax, and the default: `&` `|` `^` `!`, constants `1`/`0`, with `|` < `^` <
/// `&` < `!` from loosest to tightest. Parsing also accepts `*` `+` `~` and `true`/`false`.
#[derive(Clone, Copy, PartialEq, Eq, Hash, Default, Debug)]
pub struct StdSyntax;

/// Verilog spellings: `&` `|` `^` `~`, XNOR as `^~`/`~^`, constants `1'b1`/`1'b0` (also `1`/`0`
/// on input), with the standard precedence.
#[derive(Clone, Copy, PartialEq, Eq, Hash, Default, Debug)]
pub struct VerilogSyntax;

/// Liberty spellings: `*` (or juxtaposition) AND, `+` OR, `^` XOR, postfix `'` NOT (prefix `!` is
/// accepted), constants `1`/`0`; XOR binds tighter than AND.
#[derive(Clone, Copy, PartialEq, Eq, Hash, Default, Debug)]
pub struct LibertySyntax;

/// The standard spellings.
pub open spec fn std_spelling() -> SyntaxSpec {
    SyntaxSpec {
        and: "&",
        or: "|",
        xor: "^",
        not_prefix: "!",
        not_suffix: "",
        one: "1",
        zero: "0",
        prec_atom: 4,
        prec_not: 3,
        prec_and: 2,
        prec_xor: 1,
        prec_or: 0,
    }
}

/// The Verilog spellings.
pub open spec fn verilog_spelling() -> SyntaxSpec {
    SyntaxSpec {
        and: "&",
        or: "|",
        xor: "^",
        not_prefix: "~",
        not_suffix: "",
        one: "1'b1",
        zero: "1'b0",
        prec_atom: 4,
        prec_not: 3,
        prec_and: 2,
        prec_xor: 1,
        prec_or: 0,
    }
}

/// The Liberty spellings.
pub open spec fn liberty_spelling() -> SyntaxSpec {
    SyntaxSpec {
        and: "*",
        or: "+",
        xor: "^",
        not_prefix: "",
        not_suffix: "'",
        one: "1",
        zero: "0",
        prec_atom: 4,
        prec_not: 3,
        prec_and: 1,
        prec_xor: 2,
        prec_or: 0,
    }
}

impl Syntax for StdSyntax {
    open spec fn spelling() -> SyntaxSpec {
        std_spelling()
    }

    open spec fn grammar() -> SyntaxKind {
        SyntaxKind::Std
    }

    fn syntax_spec() -> (r: SyntaxSpec) {
        SyntaxSpec {
            and: "&",
            or: "|",
            xor: "^",
            not_prefix: "!",
            not_suffix: "",
            one: "1",
            zero: "0",
            prec_atom: 4,
            prec_not: 3,
            prec_and: 2,
            prec_xor: 1,
            prec_or: 0,
        }
    }

    fn parse_tokens(input: &str) -> (r: Result<Vec<Token>, ParseBoolExprError>) {
        parse_tokens(SyntaxKind::Std, input)
    }
}

impl Syntax for VerilogSyntax {
    open spec fn spelling() -> SyntaxSpec {
        verilog_spelling()
    }

    open spec fn grammar() -> SyntaxKind {
        SyntaxKind::Verilog
    }

    fn syntax_spec() -> (r: SyntaxSpec) {
        SyntaxSpec {
            and: "&",
            or: "|",
            xor: "^",
            not_prefix: "~",
            not_suffix: "",
            one: "1'b1",
            zero: "1'b0",
            prec_atom: 4,
            prec_not: 3,
            prec_and: 2,
            prec_xor: 1,
            prec_or: 0,
        }
    }

    fn parse_tokens(input: &str) -> (r: Result<Vec<Token>, ParseBoolExprError>) {
        parse_tokens(SyntaxKind::Verilog, input)
    }
}

impl Syntax for LibertySyntax {
    open spec fn spelling() -> SyntaxSpec {
        liberty_spelling()
    }

    open spec fn grammar() -> SyntaxKind {
        SyntaxKind::Liberty
    }

    fn syntax_spec() -> (r: SyntaxSpec) {
        SyntaxSpec {
            and: "*",
            or: "+",
            xor: "^",
            not_prefix: "",
            not_suffix: "'",
            one: "1",
            zero: "0",
            prec_atom: 4,
            prec_not: 3,
            prec_and: 1,
            prec_xor: 2,
            prec_or: 0,
        }
    }

    fn parse_tokens(input: &str) -> (r: Result<Vec<Token>, ParseBoolExprError>) {
        parse_tokens(SyntaxKind::Liberty, input)
    }
}

} // verus!
