//! The surface syntaxes: each lexicon's spellings and rejections, the round trip from text
//! through rendering and back, and the retag between syntaxes.

use espresso_logic::expression::rpn::Token;
use espresso_logic::expression::{
    BoolExpr, ExpressionParseError, LibertySyntax, ParseBoolExprError, StdSyntax, VerilogSyntax,
};
use espresso_logic::Symbol;

fn verilog(text: &str) -> BoolExpr<VerilogSyntax> {
    match text.parse::<BoolExpr<VerilogSyntax>>() {
        Ok(e) => e,
        Err(e) => panic!("{text:?} should parse as Verilog: {:?}", e),
    }
}

fn var(name: &str) -> Token {
    Token::Var(Symbol::new(name))
}

fn verilog_error_position(text: &str) -> Option<usize> {
    match text.parse::<BoolExpr<VerilogSyntax>>() {
        Err(ParseBoolExprError::Parse(ExpressionParseError::InvalidSyntax { position, .. })) => {
            position
        }
        Ok(_) => panic!("expected a parse error for {text:?}"),
    }
}

fn liberty(text: &str) -> BoolExpr<LibertySyntax> {
    match text.parse::<BoolExpr<LibertySyntax>>() {
        Ok(e) => e,
        Err(e) => panic!("{text:?} should parse as Liberty: {:?}", e),
    }
}

fn liberty_error_position(text: &str) -> Option<usize> {
    match text.parse::<BoolExpr<LibertySyntax>>() {
        Err(ParseBoolExprError::Parse(ExpressionParseError::InvalidSyntax { position, .. })) => {
            position
        }
        Ok(_) => panic!("expected a parse error for {text:?}"),
    }
}

#[test]
fn verilog_text_round_trips_through_display() {
    let corpus = [
        "a",
        "~a",
        "~~a",
        "a & b",
        "a | b",
        "a ^ b",
        "a ^~ b",
        "a & b | ~c",
        "a & (b | c)",
        "a & (b & c)",
        "a | (b | c)",
        "a ^ (b ^ c)",
        "~(a & b) | ~(a | b)",
        "a & ~(b ^~ c)",
        "1'b1 & a | 1'b0",
        "xtop/xcore/net12 & data[3]",
    ];

    for text in corpus {
        let parsed = verilog(text);
        let rendered = parsed.to_string();
        let reparsed = verilog(&rendered);
        assert_eq!(parsed.tokens(), reparsed.tokens(), "{text:?} rendered as {rendered:?}");
    }
}

#[test]
fn xnor_spellings_lower_to_the_xor_then_not_pair() {
    let expected = [var("a"), var("b"), Token::Xor, Token::Not];

    let caret_tilde = verilog("a ^~ b");
    let tilde_caret = verilog("a ~^ b");
    assert_eq!(caret_tilde.tokens(), expected.as_slice());
    assert_eq!(tilde_caret.tokens(), expected.as_slice());
    assert_eq!(caret_tilde, tilde_caret);

    assert_eq!(caret_tilde.to_string(), "~(a ^ b)");
    assert_eq!(tilde_caret.to_string(), "~(a ^ b)");
}

#[test]
fn maximal_munch_separates_xnor_from_xor_of_a_not() {
    let xnor = verilog("a ^~ b");
    let xor_of_not = verilog("a ^ ~b");

    assert_eq!(
        xor_of_not.tokens(),
        [var("a"), var("b"), Token::Not, Token::Xor].as_slice()
    );
    assert_ne!(xnor.tokens(), xor_of_not.tokens());
    assert_eq!(xor_of_not.to_string(), "a ^ ~b");
}

#[test]
fn constants_read_in_every_spelling_and_emit_sized() {
    for text in ["1'b1", "1'B1", "1"] {
        assert_eq!(verilog(text).tokens(), [Token::Const(true)].as_slice(), "{text:?}");
    }
    for text in ["1'b0", "1'B0", "0"] {
        assert_eq!(verilog(text).tokens(), [Token::Const(false)].as_slice(), "{text:?}");
    }

    assert_eq!(verilog("1'B1").to_string(), "1'b1");
    assert_eq!(verilog("1").to_string(), "1'b1");
    assert_eq!(verilog("1'B0").to_string(), "1'b0");
    assert_eq!(verilog("0").to_string(), "1'b0");
}

#[test]
fn true_and_false_are_ordinary_identifiers() {
    let f = verilog("true & false");
    assert_eq!(f.tokens(), [var("true"), var("false"), Token::And].as_slice());
    assert_eq!(f.to_string(), "true & false");
}

#[test]
fn verilog_rejects_spellings_outside_its_lexicon() {
    for text in ["a * b", "a + b", "a'", "a && b"] {
        assert!(
            text.parse::<BoolExpr<VerilogSyntax>>().is_err(),
            "{text:?} should not parse as Verilog"
        );
    }
}

#[test]
fn empty_input_errs_at_offset_zero() {
    assert_eq!(verilog_error_position(""), Some(0));
}

#[test]
fn liberty_text_round_trips_through_display() {
    let corpus = [
        "a",
        "a'",
        "a''",
        "a * b",
        "a + b",
        "a ^ b",
        "a * b + c'",
        "a * (b + c)",
        "a * (b * c)",
        "a + (b + c)",
        "a ^ (b ^ c)",
        "(a * b)' + (a * c)'",
        "a * (b ^ c)'",
        "a * (b ^ c)",
        "(a * b) ^ c",
        "1 * a + 0",
    ];

    for text in corpus {
        let parsed = liberty(text);
        let rendered = parsed.to_string();
        let reparsed = liberty(&rendered);
        assert_eq!(parsed.tokens(), reparsed.tokens(), "{text:?} rendered as {rendered:?}");
    }
}

#[test]
fn liberty_postfix_not_parenthesises_binary_operands_only() {
    let grouped = liberty("(a + b)'");
    assert_eq!(grouped.to_string(), "(a + b)'");
    let reparsed = liberty(&grouped.to_string());
    assert_eq!(grouped.tokens(), reparsed.tokens());

    let bare = liberty("a'");
    assert_eq!(bare.to_string(), "a'");

    let double = liberty("a''");
    assert_eq!(double.tokens(), [var("a"), Token::Not, Token::Not].as_slice());
    assert_eq!(double.to_string(), "a''");

    let prefix_double = liberty("!!a");
    assert_eq!(prefix_double.tokens(), double.tokens());
    assert_eq!(prefix_double.to_string(), "a''");
}

#[test]
fn juxtaposition_reads_as_and_but_never_writes_out() {
    let spelled = liberty("a * b");
    let juxtaposed = liberty("a b");
    assert_eq!(juxtaposed.tokens(), spelled.tokens());
    assert_eq!(juxtaposed.to_string(), "a * b");
    assert_eq!(spelled.to_string(), "a * b");

    let negated_juxt = liberty("a'b");
    assert_eq!(
        negated_juxt.tokens(),
        [var("a"), Token::Not, var("b"), Token::And].as_slice()
    );

    let over_group = liberty("a (b + c)");
    assert_eq!(
        over_group.tokens(),
        [var("a"), var("b"), var("c"), Token::Or, Token::And].as_slice()
    );
    assert_eq!(over_group.to_string(), "a * (b + c)");
}

#[test]
fn xor_binds_tighter_than_and_in_liberty() {
    let bare = liberty("a ^ b * c");
    let grouped = liberty("(a ^ b) * c");
    let other_grouping = liberty("a ^ (b * c)");

    assert_eq!(bare.tokens(), grouped.tokens());
    assert_ne!(bare.tokens(), other_grouping.tokens());

    assert_eq!(bare.as_syntax::<StdSyntax>().to_string(), "(a ^ b) & c");
}

#[test]
fn true_is_an_ordinary_identifier_in_liberty() {
    let f = liberty("true");
    assert_eq!(f.tokens(), [var("true")].as_slice());
}

#[test]
fn liberty_rejects_spellings_outside_its_lexicon() {
    for text in ["~a", "a && b"] {
        assert!(
            text.parse::<BoolExpr<LibertySyntax>>().is_err(),
            "{text:?} should not parse as Liberty"
        );
    }
}

#[test]
fn liberty_empty_input_errs_at_offset_zero() {
    assert_eq!(liberty_error_position(""), Some(0));
}

#[test]
fn retagging_respells_the_same_tokens() {
    let std_expr = BoolExpr::parse("a & b | !c").expect("standard syntax should parse");
    assert_eq!(std_expr.to_string(), "a & b | !c");

    let as_verilog = std_expr.as_syntax::<VerilogSyntax>();
    assert_eq!(as_verilog.tokens(), std_expr.tokens());
    assert_eq!(as_verilog.to_string(), "a & b | ~c");

    assert_eq!(verilog(&as_verilog.to_string()).tokens(), std_expr.tokens());

    let back: BoolExpr<StdSyntax> = as_verilog.as_syntax::<StdSyntax>();
    assert_eq!(back, std_expr);
    assert_eq!(back.to_string(), "a & b | !c");
}

#[test]
fn three_way_retag_respells_one_tree() {
    let as_verilog = verilog("a ^~ b");

    let as_std = as_verilog.as_syntax::<StdSyntax>();
    assert_eq!(as_std.tokens(), as_verilog.tokens());
    assert_eq!(as_std.to_string(), "!(a ^ b)");

    let as_liberty = as_verilog.as_syntax::<LibertySyntax>();
    assert_eq!(as_liberty.tokens(), as_verilog.tokens());
    assert_eq!(as_liberty.to_string(), "(a ^ b)'");

    let back: BoolExpr<VerilogSyntax> = as_liberty.as_syntax::<VerilogSyntax>();
    assert_eq!(back, as_verilog);
    assert_eq!(back.to_string(), "~(a ^ b)");
}

fn assert_props<T: Send + Sync + Clone>() {}

#[test]
fn syntax_parameter_leaks_no_bounds() {
    assert_props::<BoolExpr<StdSyntax>>();
    assert_props::<BoolExpr<VerilogSyntax>>();
    assert_props::<BoolExpr<LibertySyntax>>();
}

#[test]
fn default_is_the_unannotated_constant_false() {
    let d = BoolExpr::default();
    assert_eq!(d.to_string(), "0");
}
