use old_file_deleter::config::{validate_arguments, ConfigError};

#[test]
fn accepts_a_sound_configuration() {
    let targets = vec![true, true];
    let ignored = vec![true];
    assert_eq!(
        validate_arguments(&targets, &ignored, Some(1), Some(3)),
        Ok(())
    );
}

#[test]
fn accepts_missing_bounds() {
    let targets = vec![true];
    let ignored: Vec<bool> = vec![];
    assert_eq!(validate_arguments(&targets, &ignored, None, None), Ok(()));
    assert_eq!(
        validate_arguments(&targets, &ignored, Some(5), None),
        Ok(())
    );
    assert_eq!(
        validate_arguments(&targets, &ignored, None, Some(0)),
        Ok(())
    );
}

#[test]
fn reports_the_first_missing_target_folder() {
    let targets = vec![true, false, false];
    let ignored = vec![true];
    assert_eq!(
        validate_arguments(&targets, &ignored, None, None),
        Err(ConfigError::MissingTargetFolder(1))
    );
}

#[test]
fn reports_the_first_missing_ignored_path() {
    let targets = vec![true];
    let ignored = vec![true, false];
    assert_eq!(
        validate_arguments(&targets, &ignored, None, None),
        Err(ConfigError::MissingIgnoredPath(1))
    );
}

#[test]
fn reports_conflicting_depth_bounds() {
    let targets = vec![true];
    let ignored: Vec<bool> = vec![];
    assert_eq!(
        validate_arguments(&targets, &ignored, Some(4), Some(2)),
        Err(ConfigError::MinDepthExceedsMaxDepth)
    );
}

#[test]
fn equal_depth_bounds_are_fine() {
    let targets: Vec<bool> = vec![];
    let ignored: Vec<bool> = vec![];
    assert_eq!(
        validate_arguments(&targets, &ignored, Some(2), Some(2)),
        Ok(())
    );
}

#[test]
fn missing_targets_are_reported_before_other_faults() {
    let targets = vec![false];
    let ignored = vec![false];
    assert_eq!(
        validate_arguments(&targets, &ignored, Some(9), Some(1)),
        Err(ConfigError::MissingTargetFolder(0))
    );
}
