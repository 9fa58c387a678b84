//! Reading and writing the PLA text format.

use espresso_logic::cover::pla::{parse_pla, write_pla, PLAError, PlaParts};
use espresso_logic::cover::{Cube, CubeType, PLAType};
use espresso_logic::expression::cover::ExprCover;
use espresso_logic::BoolExpr;

fn read(s: &str) -> PlaParts {
    match parse_pla(s) {
        Ok(p) => p,
        Err(e) => panic!("{s:?} should read: {e:?}"),
    }
}

fn err(s: &str) -> PLAError {
    match parse_pla(s) {
        Ok(p) => panic!("{s:?} should not read, got {p:?}"),
        Err(e) => e,
    }
}

fn labels(v: &[&str]) -> Vec<String> {
    v.iter().map(|s| s.to_string()).collect()
}

#[test]
fn reads_the_documented_example() {
    let cover = read(".i 2\n.o 1\n.p 1\n01 1\n.e\n");
    assert_eq!(cover.num_inputs, 2);
    assert_eq!(cover.num_outputs, 1);
    assert_eq!(cover.cubes.len(), 1);
    assert_eq!(cover.cubes[0].inputs, vec![Some(false), Some(true)]);
    assert_eq!(cover.cubes[0].outputs, vec![true]);
    assert_eq!(cover.cubes[0].cube_type, CubeType::F);
    assert_eq!(cover.cover_type, PLAType::FD);
    assert_eq!(cover.input_labels, labels(&["x0", "x1"]));
    assert_eq!(cover.output_labels, labels(&["y0"]));
}

#[test]
fn one_row_splits_into_on_dont_care_and_off_cubes() {
    let cover = read(".i 2\n.o 3\n.type fdr\n1- 1-0\n.e\n");
    assert_eq!(cover.cubes.len(), 3);
    assert_eq!(cover.cubes[0].cube_type, CubeType::F);
    assert_eq!(cover.cubes[0].outputs, vec![true, false, false]);
    assert_eq!(cover.cubes[1].cube_type, CubeType::D);
    assert_eq!(cover.cubes[1].outputs, vec![false, true, false]);
    assert_eq!(cover.cubes[2].cube_type, CubeType::R);
    assert_eq!(cover.cubes[2].outputs, vec![false, false, true]);
    assert_eq!(cover.cubes[0].inputs, vec![Some(true), None]);

    // Under `f` only the on-set is kept.
    let only_f = read(".i 2\n.o 3\n.type f\n1- 1-0\n.e\n");
    assert_eq!(only_f.cubes.len(), 1);
    assert_eq!(only_f.cover_type, PLAType::F);
}

#[test]
fn rows_may_use_a_bar_spaces_and_several_lines() {
    let cover = read("# comment\n.i 2\n.o 2\n\n01 | 1 0\n0 1 1 0\n.e\n");
    assert_eq!(cover.cubes.len(), 2);
    assert_eq!(cover.cubes[0].inputs, vec![Some(false), Some(true)]);
    assert_eq!(cover.cubes[0].outputs, vec![true, false]);
    let multi = read(".i 4\n.o 2\n0101\n11\n.e\n");
    assert_eq!(multi.cubes.len(), 1);
    assert_eq!(multi.cubes[0].inputs, vec![Some(false), Some(true), Some(false), Some(true)]);
    assert_eq!(multi.cubes[0].outputs, vec![true, true]);
}

#[test]
fn dimensions_are_inferred_from_the_first_row() {
    let cover = read("01 1\n1- 1\n");
    assert_eq!(cover.num_inputs, 2);
    assert_eq!(cover.num_outputs, 1);
    assert_eq!(cover.cubes.len(), 2);
}

#[test]
fn labels_are_read() {
    let cover = read(".i 2\n.o 1\n.ilb a b\n.ob f\n01 1\n.e\n");
    assert_eq!(cover.input_labels, labels(&["a", "b"]));
    assert_eq!(cover.output_labels, labels(&["f"]));
}

#[test]
fn malformed_pla_cube_dimension_mismatch_errors() {
    let too_wide = ".i 2\n.o 1\n0111 1\n.e\n";
    assert!(matches!(err(too_wide), PLAError::CubeDimensionMismatch { .. }));

    let truncated = ".i 4\n.o 2\n01\n.e\n";
    assert!(matches!(err(truncated), PLAError::CubeDimensionMismatch { .. }));

    let over_long_multiline = ".i 4\n.o 2\n0101\n111\n.e\n";
    assert!(matches!(
        err(over_long_multiline),
        PLAError::CubeDimensionMismatch { expected: 6, actual: 7 }
    ));

    assert!(parse_pla(".i 4\n.o 2\n0101\n11\n.e\n").is_ok());
    assert!(parse_pla(".i 2\n.o 1\n01 1\n11 1\n.e\n").is_ok());
    assert!(parse_pla(".i 2\n.o 1\n01 1\n.end\n").is_ok());
}

#[test]
fn malformed_pla_other_errors() {
    assert!(matches!(
        err(".i 2\n.o 1\n.ilb a\n01 1\n.e\n"),
        PLAError::LabelCountMismatch { expected: 2, actual: 1, .. }
    ));
    assert!(matches!(err("0101\n.e\n"), PLAError::MissingDimensions));
    assert!(matches!(
        err(".i 2\n.o 1\n0z 1\n.e\n"),
        PLAError::InvalidInputCharacter { character: 'z', position: 1 }
    ));
    assert!(matches!(
        err(".i 1\n.o 1\n0 9\n.e\n"),
        PLAError::InvalidOutputCharacter { character: '9', position: 0 }
    ));
    match err(".i two\n.o 1\n01 1\n.e\n") {
        PLAError::InvalidInputDirective { value } => assert_eq!(value, "two"),
        other => panic!("unexpected {other:?}"),
    }
    assert!(matches!(err(".i 2\n.o two\n01 1\n.e\n"), PLAError::InvalidOutputDirective { .. }));
    assert!(matches!(err(".i 2\n.e\n"), PLAError::MissingOutputDirective));
    assert!(matches!(err(".o 1\n.e\n"), PLAError::MissingInputDirective));
    assert!(matches!(
        err(".i 2\n.o 1\n.type bogus\n01 1\n.e\n"),
        PLAError::InvalidTypeDirective { .. }
    ));
}

#[test]
fn writes_the_format() {
    let cubes = vec![
        Cube::new(vec![Some(false), None], vec![true], CubeType::F),
        Cube::new(vec![Some(true), Some(true)], vec![true], CubeType::D),
    ];
    let f = write_pla(2, 1, None, None, &cubes, PLAType::F);
    assert_eq!(f, ".i 2\n.o 1\n.p 1\n0- 1\n.e\n");
    let ilb = labels(&["a", "b"]);
    let ob = labels(&["out"]);
    let fd = write_pla(2, 1, Some(&ilb), Some(&ob), &cubes, PLAType::FD);
    assert_eq!(fd, ".type fd\n.i 2\n.ilb a b\n.o 1\n.ob out\n.p 2\n0- 1\n11 2\n.end\n");
}

#[test]
fn pla_cover_variant_tracks_label_sections() {
    let cubes = "\n01 1\n10 1\n.e\n";
    let both = format!(".i 2\n.o 1\n.ilb a b\n.ob f{cubes}");
    let inputs_only = format!(".i 2\n.o 1\n.ilb a b{cubes}");
    let outputs_only = format!(".i 2\n.o 1\n.ob f{cubes}");
    let neither = format!(".i 2\n.o 1{cubes}");

    for src in [&both, &inputs_only, &outputs_only, &neither] {
        let p = read(src);
        let ilb = if src.contains(".ilb") { Some(&p.input_labels) } else { None };
        let ob = if src.contains(".ob") { Some(&p.output_labels) } else { None };
        let out = write_pla(p.num_inputs, p.num_outputs, ilb, ob, &p.cubes, PLAType::F);
        assert_eq!(out.contains(".ilb"), src.contains(".ilb"), "ilb: {src}");
        assert_eq!(out.contains(".ob"), src.contains(".ob"), "ob: {src}");
        let again = read(&out);
        assert_eq!(again.input_labels, p.input_labels);
        assert_eq!(again.output_labels, p.output_labels);
        assert_eq!(again.cubes.len(), p.cubes.len());
    }
}

#[test]
fn test_pla_roundtrip_with_expressions() {
    let a = BoolExpr::var("a");
    let b = BoolExpr::var("b");
    let cover = ExprCover::from_expr(a.and(&b));
    let ilb: Vec<String> = cover.variables().iter().map(|s| s.to_string()).collect();
    let ob = labels(&["output"]);

    let pla_string =
        write_pla(cover.num_inputs(), cover.num_outputs(), Some(&ilb), Some(&ob), cover.cubes(), PLAType::F);
    let cover2 = read(&pla_string);

    assert_eq!(cover2.num_inputs, cover.num_inputs());
    assert_eq!(cover2.num_outputs, cover.num_outputs());
    assert_eq!(cover2.cubes.len(), cover.cubes().len());
    assert_eq!(cover2.input_labels[0], "a");
    assert_eq!(cover2.input_labels[1], "b");
    assert_eq!(cover2.output_labels[0], "output");
}

#[test]
fn written_covers_read_back_whole() {
    let cubes = vec![
        Cube::new(vec![Some(false), None, Some(true)], vec![true, false], CubeType::F),
        Cube::new(vec![None, None, Some(false)], vec![false, true], CubeType::D),
        Cube::new(vec![Some(true), Some(true), None], vec![true, true], CubeType::R),
    ];
    for t in [PLAType::F, PLAType::FD, PLAType::FR, PLAType::FDR] {
        let text = write_pla(3, 2, None, None, &cubes, t);
        let back = read(&text);
        let kept: Vec<Cube> = cubes
            .iter()
            .filter(|c| match t {
                PLAType::F => c.cube_type == CubeType::F,
                PLAType::FD => c.cube_type != CubeType::R,
                PLAType::FR => c.cube_type != CubeType::D,
                PLAType::FDR => true,
            })
            .cloned()
            .collect();
        assert_eq!(back.num_inputs, 3);
        assert_eq!(back.num_outputs, 2);
        assert_eq!(back.cubes, kept, "{text}");
        assert_eq!(back.cover_type, if t == PLAType::F { PLAType::FD } else { t });
        assert_eq!(back.input_labels, labels(&["x0", "x1", "x2"]));
        assert_eq!(back.output_labels, labels(&["y0", "y1"]));
    }
}

#[test]
fn a_cover_without_inputs_reads_back() {
    let cubes = vec![Cube::new(vec![], vec![true, false], CubeType::F)];
    let ob = labels(&["p", "q"]);
    let text = write_pla(0, 2, Some(&vec![]), Some(&ob), &cubes, PLAType::FD);
    let back = read(&text);
    assert_eq!(back.num_inputs, 0);
    assert_eq!(back.cubes, cubes);
    assert_eq!(back.output_labels, ob);
    assert!(back.input_labels.is_empty());
}
