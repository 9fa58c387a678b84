//! The error types: their messages, their conversions into one another, and into `std::io::Error`.

use espresso_logic::espresso::{CubeError, InstanceError, MinimizationError};
use espresso_logic::expression::{ExpressionParseError, ParseBoolExprError};
use std::io;

#[test]
fn test_expression_parse_error_with_position() {
    let err = ExpressionParseError::InvalidSyntax {
        message: String::from("unexpected token"),
        input: String::from("a * b ++"),
        position: Some(6),
    };
    let msg = err.to_string();
    assert!(msg.contains("position 6"));
    assert!(msg.contains("unexpected token"));
}

#[test]
fn test_expression_parse_error_without_position() {
    let err = ExpressionParseError::InvalidSyntax {
        message: String::from("unexpected end"),
        input: String::from("a * b +"),
        position: None,
    };
    let msg = err.to_string();
    assert!(!msg.contains("position"));
    assert!(msg.contains("unexpected end"));
}

#[test]
fn parse_error_message_quotes_and_escapes_the_input() {
    let err = ExpressionParseError::InvalidSyntax {
        message: String::from("bad"),
        input: String::from("a \"b\""),
        position: Some(2),
    };
    assert_eq!(
        err.to_string(),
        "Failed to parse boolean expression at position 2: bad. Input: \"a \\\"b\\\"\""
    );
    let wrapped = ParseBoolExprError::Parse(err);
    assert_eq!(
        wrapped.to_string(),
        "Failed to parse boolean expression at position 2: bad. Input: \"a \\\"b\\\"\""
    );
}

#[test]
fn test_parse_bool_expr_error() {
    let parse_err = ExpressionParseError::InvalidSyntax {
        message: String::from("test"),
        input: String::from("bad input"),
        position: Some(5),
    };
    let bool_err: ParseBoolExprError = parse_err.into();
    assert!(matches!(bool_err, ParseBoolExprError::Parse(_)));
}

#[test]
fn test_expression_parse_error_to_io_error() {
    let err = ExpressionParseError::InvalidSyntax {
        message: String::from("test"),
        input: String::from("bad input"),
        position: Some(5),
    };
    let io_err: io::Error = err.to_io_error();
    assert_eq!(io_err.kind(), io::ErrorKind::InvalidData);
}

#[test]
fn test_parse_bool_expr_error_to_io_error() {
    let parse_err = ExpressionParseError::InvalidSyntax {
        message: String::from("test"),
        input: String::from("bad input"),
        position: Some(5),
    };
    let bool_err = ParseBoolExprError::Parse(parse_err);
    let io_err: io::Error = bool_err.to_io_error();
    assert_eq!(io_err.kind(), io::ErrorKind::InvalidData);
}

#[test]
fn test_instance_error_dimension_mismatch() {
    let err = InstanceError::DimensionMismatch { requested: (2, 1), existing: (3, 2) };
    let msg = err.to_string();
    assert!(msg.contains("Cannot create Espresso instance"));
    assert!(msg.contains("(2, 1)"));
    assert!(msg.contains("(3, 2)"));
}

#[test]
fn test_instance_error_config_mismatch() {
    let err = InstanceError::ConfigMismatch { requested: (2, 1), existing: (2, 1) };
    let msg = err.to_string();
    assert!(msg.contains("different configuration"));
    assert!(msg.contains("(2, 1)"));
}

#[test]
fn test_cube_error_invalid_value() {
    let err = CubeError::InvalidValue { value: 5, position: 2 };
    let msg = err.to_string();
    assert!(msg.contains("Invalid cube value 5"));
    assert!(msg.contains("position 2"));
}

#[test]
fn test_minimization_error_from_instance_error() {
    let inst_err = InstanceError::DimensionMismatch { requested: (2, 1), existing: (3, 2) };
    let min_err: MinimizationError = inst_err.into();
    assert!(matches!(min_err, MinimizationError::Instance(_)));
    assert!(min_err.source().is_some());
}

#[test]
fn test_minimization_error_from_cube_error() {
    let cube_err = CubeError::InvalidValue { value: 5, position: 2 };
    let min_err: MinimizationError = cube_err.into();
    assert!(matches!(min_err, MinimizationError::Cube(_)));
}

#[test]
fn test_minimization_error_from_io_error() {
    let io_err = io::Error::new(io::ErrorKind::NotFound, "file not found");
    let min_err: MinimizationError = io_err.into();
    assert!(matches!(min_err, MinimizationError::Io(_)));
}

#[test]
fn test_instance_error_to_io_error() {
    let err = InstanceError::DimensionMismatch { requested: (2, 1), existing: (3, 2) };
    let io_err: io::Error = err.to_io_error();
    assert_eq!(io_err.kind(), io::ErrorKind::Other);
}

#[test]
fn test_cube_error_to_io_error() {
    let err = CubeError::InvalidValue { value: 5, position: 2 };
    let io_err: io::Error = err.to_io_error();
    assert_eq!(io_err.kind(), io::ErrorKind::InvalidData);
}

#[test]
fn test_minimization_error_to_io_error_preserves_io_error() {
    let original_io_err = io::Error::new(io::ErrorKind::NotFound, "file not found");
    let min_err = MinimizationError::Io(original_io_err);
    let io_err: io::Error = min_err.into_io_error();
    assert_eq!(io_err.kind(), io::ErrorKind::NotFound);
    assert_eq!(io_err.to_string(), "file not found");
}

#[test]
fn test_minimization_error_instance_to_io_error() {
    let inst_err = InstanceError::DimensionMismatch { requested: (2, 1), existing: (3, 2) };
    let min_err = MinimizationError::Instance(inst_err);
    let io_err: io::Error = min_err.into_io_error();
    assert_eq!(io_err.kind(), io::ErrorKind::Other);
}

#[test]
fn test_minimization_error_cube_to_io_error() {
    let cube_err = CubeError::InvalidValue { value: 5, position: 2 };
    let min_err = MinimizationError::Cube(cube_err);
    let io_err: io::Error = min_err.into_io_error();
    assert_eq!(io_err.kind(), io::ErrorKind::InvalidData);
    assert_eq!(io_err.to_string(), cube_err.to_string());
}

#[test]
fn instance_error_messages_are_exact() {
    let err = InstanceError::DimensionMismatch { requested: (2, 1), existing: (3, 2) };
    assert_eq!(
        err.to_string(),
        "Cannot create Espresso instance with dimensions (2, 1) because a thread-local instance \
         with dimensions (3, 2) already exists. Drop all existing covers and handles first."
    );
    let cube = CubeError::InvalidValue { value: 7, position: 0 };
    assert_eq!(
        cube.to_string(),
        "Invalid cube value 7 at position 0. Expected 0 (low), 1 (high), or 2 (don't care)."
    );
}

#[test]
fn minimization_error_messages_name_their_kind() {
    let inst = MinimizationError::Instance(InstanceError::DimensionMismatch {
        requested: (2, 1),
        existing: (3, 1),
    });
    assert_eq!(
        inst.to_string(),
        format!("Instance error: {}", InstanceError::DimensionMismatch { requested: (2, 1), existing: (3, 1) }.to_string())
    );
    let cube = MinimizationError::Cube(CubeError::InvalidValue { value: 5, position: 0 });
    assert_eq!(
        cube.to_string(),
        "Cube error: Invalid cube value 5 at position 0. Expected 0 (low), 1 (high), or 2 (don't care)."
    );
    let io_err = MinimizationError::Io(io::Error::new(io::ErrorKind::NotFound, "file not found"));
    assert_eq!(io_err.to_string(), "IO error: file not found");
}

#[test]
fn io_errors_carry_kind_and_message() {
    let e = CubeError::InvalidValue { value: 3, position: 1 };
    let io_e = e.to_io_error();
    assert_eq!(io_e.kind(), io::ErrorKind::InvalidData);
    assert_eq!(io_e.to_string(), e.to_string());
    let i = InstanceError::ConfigMismatch { requested: (1, 1), existing: (1, 1) };
    let io_i = i.to_io_error();
    assert_eq!(io_i.kind(), io::ErrorKind::Other);
    assert_eq!(io_i.to_string(), i.to_string());
}
