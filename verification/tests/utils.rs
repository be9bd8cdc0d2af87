use simcom_finder::utils::{udevadm_args, CommandResult, UDEVADM};

#[test]
fn program_is_udevadm() {
    assert_eq!(UDEVADM, "udevadm");
}

#[test]
fn arguments_name_the_path_last() {
    assert_eq!(udevadm_args("/sys/x"), vec!["info", "-q", "property", "-p", "/sys/x"]);
}

#[test]
fn output_of_a_successful_run_is_usable() {
    let result = CommandResult { status: Some(0), stdout: Some(String::from("A=1\n")), stderr: None };
    assert_eq!(result.into_output(), Some(String::from("A=1\n")));
}

#[test]
fn output_of_a_failed_run_is_not_usable() {
    let failed = CommandResult { status: Some(1), stdout: Some(String::from("A=1\n")), stderr: None };
    assert_eq!(failed.into_output(), None);
    let killed = CommandResult { status: None, stdout: Some(String::from("A=1\n")), stderr: None };
    assert_eq!(killed.into_output(), None);
    let negative = CommandResult { status: Some(-1), stdout: Some(String::from("A=1\n")), stderr: None };
    assert_eq!(negative.into_output(), None);
}

#[test]
fn missing_output_is_not_usable() {
    let silent = CommandResult { status: Some(0), stdout: None, stderr: Some(String::from("e")) };
    assert_eq!(silent.into_output(), None);
    assert_eq!(CommandResult::none().into_output(), None);
    assert_eq!(CommandResult::none(), CommandResult { status: None, stdout: None, stderr: None });
}
