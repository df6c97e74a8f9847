use minipacked::cli::{RootCommand, choose_output_name, root_command, stored_password, unpack_input};
use minipacked::constants::{PASSWORD_MODE_DEFAULT, PASSWORD_MODE_PROMPTED};
use minipacked::error::PackError;
use minipacked::prompt::{
    PasswordPair, accept_password, confirm_password_pair, prompt_line, prompt_password_pair,
};
use minipacked::text::strip_line_ending;

fn v(args: &[&str]) -> Vec<String> {
    args.iter().map(|s| s.to_string()).collect()
}

#[test]
fn lines_are_stripped_and_trimmed() {
    assert_eq!(strip_line_ending("abc\r\n\n"), "abc");
    assert_eq!(strip_line_ending(" a b \n"), " a b ");
    assert_eq!(strip_line_ending(""), "");
    assert_eq!(prompt_line("  name \t\r\n"), "name");
    assert_eq!(prompt_line("\u{3000}x\u{a0}\n"), "x");
    assert_eq!(prompt_line("\n"), "");
}

#[test]
fn password_rules() {
    assert_eq!(accept_password(String::new(), true).unwrap(), "");
    assert_eq!(accept_password(String::new(), false).err(), Some(PackError::EmptyPassword));
    assert_eq!(accept_password("x".into(), false).unwrap(), "x");

    match prompt_password_pair("") {
        PasswordPair::Chosen(p, m) => {
            assert_eq!(p, "minipacked");
            assert_eq!(m, PASSWORD_MODE_DEFAULT);
        }
        PasswordPair::NeedRepeat => panic!("an empty entry selects the built-in password"),
    }
    assert!(matches!(prompt_password_pair("pw"), PasswordPair::NeedRepeat));
    assert_eq!(
        confirm_password_pair("pw".into(), "pw").unwrap(),
        ("pw".to_string(), PASSWORD_MODE_PROMPTED)
    );
    assert_eq!(
        confirm_password_pair("pw".into(), "px").err(),
        Some(PackError::PasswordMismatch)
    );
    assert_eq!(confirm_password_pair("pw".into(), "").err(), Some(PackError::EmptyPassword));
}

#[test]
fn unpack_password_follows_pack_choice() {
    let chosen = match prompt_password_pair("") {
        PasswordPair::Chosen(p, m) => (p, m),
        PasswordPair::NeedRepeat => unreachable!(),
    };
    assert_eq!(stored_password(chosen.1), Some(chosen.0));
    let (_, mode) = confirm_password_pair("pw".into(), "pw").unwrap();
    assert_eq!(stored_password(mode), None);
}

#[test]
fn output_names() {
    assert_eq!(choose_output_name(String::new(), "a.minipacked".into()), "a.minipacked");
    assert_eq!(choose_output_name("  ".into(), "a.minipacked".into()), "a.minipacked");
    assert_eq!(choose_output_name("b.minipacked".into(), "a.minipacked".into()), "b.minipacked");
    assert_eq!(choose_output_name("b".into(), "a.minipacked".into()), "b.minipacked");
    assert_eq!(choose_output_name("b.tar".into(), "a.minipacked".into()), "b.tar.minipacked");
}

#[test]
fn root_commands() {
    match root_command(&v(&["minipacked", "pack", "--fast", "f"])) {
        RootCommand::Pack(f) => assert_eq!(f, v(&["minipack", "--fast", "f"])),
        _ => panic!("expected pack"),
    }
    match root_command(&v(&["minipacked", "unpack", "a.minipacked"])) {
        RootCommand::Unpack(f) => assert_eq!(f, v(&["miniunpack", "a.minipacked"])),
        _ => panic!("expected unpack"),
    }
    assert!(matches!(root_command(&v(&["minipacked"])), RootCommand::Usage));
    assert!(matches!(root_command(&v(&["minipacked", "list"])), RootCommand::Usage));
}

#[test]
fn unpack_arguments() {
    assert_eq!(unpack_input(&v(&["miniunpack", "a.minipacked"])).unwrap(), "a.minipacked");
    assert_eq!(unpack_input(&v(&["miniunpack"])).err(), Some(PackError::UnpackUsage));
    assert_eq!(unpack_input(&v(&["miniunpack", "a", "b"])).err(), Some(PackError::UnpackUsage));
}
