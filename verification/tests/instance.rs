//! Requests for a minimiser instance, and cube input validation.

use espresso_logic::espresso::instance::{
    check_cube_inputs, cube_dimensions_match, cube_words, dimensions_fit, instance_check, InstanceAction,
};
use espresso_logic::espresso::{CubeError, EspressoConfig, InstanceError};

#[test]
fn a_request_with_no_live_instance_creates_one() {
    assert_eq!(instance_check((2, 1), None, None), Ok(InstanceAction::Create));
    assert_eq!(instance_check((2, 1), Some(EspressoConfig::default()), None), Ok(InstanceAction::Create));
}

#[test]
fn a_live_instance_is_reused_only_when_it_fits() {
    let dflt = EspressoConfig::default();
    let mut other = EspressoConfig::default();
    other.single_expand = true;
    assert_eq!(instance_check((2, 1), None, Some(((2, 1), dflt))), Ok(InstanceAction::Reuse));
    assert_eq!(instance_check((2, 1), Some(dflt), Some(((2, 1), dflt))), Ok(InstanceAction::Reuse));
    assert_eq!(
        instance_check((3, 1), None, Some(((2, 1), dflt))),
        Err(InstanceError::DimensionMismatch { requested: (3, 1), existing: (2, 1) })
    );
    assert_eq!(
        instance_check((2, 1), Some(other), Some(((2, 1), dflt))),
        Err(InstanceError::ConfigMismatch { requested: (2, 1), existing: (2, 1) })
    );
    // Dimensions are checked before the configuration.
    assert_eq!(
        instance_check((2, 2), Some(other), Some(((2, 1), dflt))),
        Err(InstanceError::DimensionMismatch { requested: (2, 2), existing: (2, 1) })
    );
}

#[test]
fn cube_inputs_report_the_first_invalid_value() {
    assert_eq!(check_cube_inputs(&[0, 1, 2]), Ok(()));
    assert_eq!(check_cube_inputs(&[]), Ok(()));
    assert_eq!(
        check_cube_inputs(&[0, 7, 1, 9]),
        Err(CubeError::InvalidValue { value: 7, position: 1 })
    );
}

#[test]
fn dimensions_must_fit_the_engine_counts() {
    let max = i32::MAX as usize;
    assert!(dimensions_fit(2, 1));
    assert!(dimensions_fit(0, max));
    assert!(!dimensions_fit(0, max + 1));
    assert!(dimensions_fit(max / 2 - 1, 1));
    assert!(!dimensions_fit(max / 2, 2));
    assert!(!dimensions_fit(max, 0));
}

#[test]
fn cubes_must_have_the_dimensions() {
    assert!(cube_dimensions_match(&[0, 1], &[1], 2, 1));
    assert!(!cube_dimensions_match(&[0, 1, 2], &[1], 2, 1));
    assert!(!cube_dimensions_match(&[0, 1], &[], 2, 1));
}

#[test]
fn cube_values_pack_two_bits_per_input_and_one_per_output() {
    // Inputs 0, 1, 2 take bits 0, 3, and 4 and 5; outputs 1, 0, 1 take bits 6 and 8.
    assert_eq!(cube_words(&[0, 1, 2], &[1, 0, 1]), vec![0b1_0111_1001]);
    assert_eq!(cube_words(&[], &[]), Vec::<u32>::new());
    // Seventeen don't-cares fill 34 bits: one full word and two bits of the next.
    assert_eq!(cube_words(&[2; 17], &[]), vec![u32::MAX, 0b11]);
}
