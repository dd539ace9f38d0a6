//! The command line.

use zolal_core::carrier::{CarrierFormat, Technique};
use zolal_core::cli::{
    check_count, command_named, explain, parse, passphrase, percent, technique_named, Command,
};
use zolal_core::error::ZolalError;

fn words(list: &[&str]) -> Vec<String> {
    list.iter().map(|w| w.to_string()).collect()
}

#[test]
fn options_and_positionals_are_told_apart() {
    let args = parse(&words(&[
        "photo.jpg", "--pass", "pw", "out.jpg", "--technique", "app15", "a.txt",
    ]))
    .unwrap();
    assert_eq!(args.positional, ["photo.jpg", "out.jpg", "a.txt"]);
    assert_eq!(args.pass.as_deref(), Some("pw"));
    assert_eq!(args.technique.as_deref(), Some("app15"));

    // A value may look like an option, and the last one counts.
    let args = parse(&words(&["--pass", "--x", "--pass", "y"])).unwrap();
    assert_eq!(args.pass.as_deref(), Some("y"));

    assert_eq!(parse(&words(&["--pass"])).unwrap_err(), "--pass needs a value");
    assert_eq!(
        parse(&words(&["a", "--technique"])).unwrap_err(),
        "--technique needs a value"
    );
    assert_eq!(parse(&words(&["--fast"])).unwrap_err(), "unknown option --fast");
    assert_eq!(parse(&words(&["-", "-x"])).unwrap().positional, ["-", "-x"]);
}

#[test]
fn the_option_wins_over_the_environment() {
    let env = Some("env".to_string());
    assert_eq!(passphrase(Some("opt".to_string()), env.clone()).unwrap(), "opt");
    assert_eq!(passphrase(None, env.clone()).unwrap(), "env");
    let text = "a passphrase is required (--pass or ZOLAL_PASS)";
    assert_eq!(passphrase(Some(String::new()), env).unwrap_err(), text);
    assert_eq!(passphrase(None, None).unwrap_err(), text);
}

#[test]
fn commands_and_techniques_have_names() {
    assert_eq!(command_named("hide"), Some(Command::Hide));
    assert_eq!(command_named("reveal"), Some(Command::Reveal));
    assert_eq!(command_named("clean"), Some(Command::Clean));
    assert_eq!(command_named("probe"), Some(Command::Probe));
    assert_eq!(command_named("help"), None);
    assert_eq!(technique_named(&None).unwrap(), Technique::Auto);
    assert_eq!(
        technique_named(&Some("trailer".to_string())).unwrap(),
        Technique::JpegTrailer
    );
    assert_eq!(
        technique_named(&Some("app15".to_string())).unwrap(),
        Technique::JpegApp15
    );
    assert_eq!(
        technique_named(&Some("x".to_string())).unwrap_err(),
        "unknown technique x"
    );
}

#[test]
fn each_command_counts_its_arguments() {
    assert!(check_count(Command::Hide, 3).is_ok());
    assert_eq!(
        check_count(Command::Hide, 1).unwrap_err(),
        "hide needs <carrier> <output> <payload...>"
    );
    assert_eq!(
        check_count(Command::Hide, 2).unwrap_err(),
        "hide needs at least one payload file"
    );
    assert!(check_count(Command::Reveal, 2).is_ok());
    assert!(check_count(Command::Reveal, 3).is_err());
    assert!(check_count(Command::Clean, 2).is_ok());
    assert_eq!(
        check_count(Command::Clean, 0).unwrap_err(),
        "clean needs <carrier> <output>"
    );
    assert!(check_count(Command::Probe, 1).is_ok());
    assert_eq!(check_count(Command::Probe, 2).unwrap_err(), "probe needs <carrier>");
}

#[test]
fn errors_are_explained_to_people() {
    let text = explain(
        &ZolalError::PayloadTooLarge {
            output_size: 60,
            limit: 50,
            suggestion: CarrierFormat::Mp4,
        },
        "60 B",
        "50 B",
    );
    assert_eq!(
        text,
        "too big to hide in this file: the result would be 60 B (the limit is 50 B), and a file that \
         size may not open at all. Hide it in a video (MP4) instead."
    );
    let bare = ZolalError::NoHiddenData {
        carrier_looks_reencoded: false,
    };
    assert_eq!(explain(&bare, "", ""), "nothing hidden in this file");
    assert_eq!(explain(&ZolalError::WrongPassphrase, "", ""), "wrong passphrase");
    assert_eq!(
        explain(&ZolalError::Cancelled, "", ""),
        ZolalError::Cancelled.message()
    );
}

#[test]
fn progress_is_never_nothing() {
    assert_eq!(percent(0, 7), 1);
    assert_eq!(percent(1, 3), 33);
    assert_eq!(percent(7, 7), 100);
}
