use tk::extract_command_names;

#[test]
fn test_command_per_segment() {
    let commands = extract_command_names("a && b | c ; d");

    assert_eq!(
        commands,
        Some(vec![
            String::from("a"),
            String::from("b"),
            String::from("c"),
            String::from("d"),
        ])
    );
}

#[test]
fn test_assignment_is_not_a_command() {
    let commands = extract_command_names("FOO=bar ls -l");

    assert_eq!(commands, Some(vec![String::from("ls")]));
}

#[test]
fn test_unparsable_line_yields_none() {
    assert_eq!(extract_command_names("echo 'abc"), None);
}

#[test]
fn test_blank_line_has_no_commands() {
    assert_eq!(extract_command_names("   "), Some(Vec::new()));
}
