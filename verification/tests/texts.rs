use pijul::cli::{
    external_command, external_command_error, interactive_context, log_style, report, CommandEnd,
    InteractiveContext, LogStyle, SpawnError,
};
use pijul::limits::{max_files, max_files_for, FileLimit};
use pijul::text_encoding::Encoding;

#[test]
fn labels_stand_for_encodings() {
    assert_eq!(Encoding::for_label("utf8").label(), "UTF-8");
    assert_eq!(Encoding::for_label(" Latin1 ").label(), "windows-1252");
    assert_eq!(Encoding::for_label("sjis").label(), "Shift_JIS");
    assert!(Encoding::checked_for_label("no such label").is_none());
    assert!(Encoding::checked_for_label("replacement").is_none());
    assert_eq!(Encoding::checked_for_label("utf-16le").unwrap().label(), "UTF-16LE");
}

#[test]
fn spellings_of_a_label_stand_for_one_encoding() {
    for label in ["UTF8", " utf8", "\tUtf8\r\n", "uTF8\u{c}  "] {
        assert_eq!(Encoding::for_label(label), Encoding::for_label("utf8"));
    }
    // Other spaces, and spaces within, make another label.
    assert!(Encoding::checked_for_label("utf8\u{b}").is_none());
    assert!(Encoding::checked_for_label("\u{a0}utf8").is_none());
    assert!(Encoding::checked_for_label("utf 8").is_none());
    assert!(Encoding::checked_for_label("  ").is_none());
}

#[test]
fn labels_round_trip() {
    for label in ["utf8", "latin1", "sjis", "gbk", "koi8-r", "x-user-defined", "iso-8859-8-i"] {
        let e = Encoding::for_label(label);
        let again = Encoding::for_label(e.label());
        assert_eq!(again, e);
        assert_eq!(again.clone(), e);
        assert_eq!(again.label(), e.label());
    }
    assert_ne!(Encoding::for_label("utf8"), Encoding::for_label("sjis"));
}

#[test]
fn texts_are_decoded_and_encoded() {
    let latin = Encoding::for_label("latin1");
    assert_eq!(latin.decode(&[b'a', 0xe9]), "aé");
    assert_eq!(latin.encode("aé"), vec![b'a', 0xe9]);
    let utf8 = Encoding::for_label("utf-8");
    assert_eq!(utf8.decode(&[0xef, 0xbb, 0xbf, b'a', 0xff]), "a\u{fffd}");
    assert_eq!(utf8.encode("é"), vec![0xc3, 0xa9]);
    let sjis = Encoding::for_label("shift_jis");
    assert_eq!(sjis.encode("日本"), vec![0x93, 0xfa, 0x96, 0x7b]);
    assert_eq!(sjis.decode(&[0x93, 0xfa, 0x96, 0x7b]), "日本");
}

#[test]
fn files_to_keep_open() {
    let f = |l, p| max_files_for(l, p).unwrap();
    assert_eq!(f(FileLimit::Unix(Some(1024)), Some(4)), 128);
    assert_eq!(f(FileLimit::Unix(Some(7)), Some(4)), 1);
    assert_eq!(f(FileLimit::Unix(Some(0)), Some(1)), 1);
    assert_eq!(f(FileLimit::Unix(Some(9)), Some(1)), 4);
    assert_eq!(f(FileLimit::Unix(None), None), 256);
    assert_eq!(f(FileLimit::Other, Some(8)), 1);
    assert!(max_files_for(FileLimit::Unix(Some(1024)), None).is_err());
}

#[test]
fn files_that_this_process_keeps_open() {
    let (soft, _) = rlimit::getrlimit(rlimit::Resource::NOFILE).unwrap();
    assert_eq!(max_files(Some(1)).unwrap(), (soft as usize / 2).max(1));
    assert_eq!(max_files(Some(3)).unwrap(), (soft as usize / 6).max(1));
}

#[test]
fn unknown_subcommands_are_programs() {
    let c = external_command(vec![b"foo".to_vec(), b"-x".to_vec(), vec![0xff]]);
    assert_eq!(c.name, b"foo");
    assert_eq!(c.program, b"pijul-foo");
    assert_eq!(c.args, vec![b"-x".to_vec(), vec![0xff]]);
    assert!(external_command(vec![b"foo".to_vec()]).args.is_empty());
}

#[test]
fn programs_that_cannot_be_run() {
    let e = |k| external_command_error(k, "\"foo\"", "oops");
    assert_eq!(e(SpawnError::NotFound), "No such subcommand: \"foo\"");
    assert_eq!(e(SpawnError::PermissionDenied), "No such subcommand: \"foo\"");
    assert_eq!(e(SpawnError::Other), "Error while running \"foo\": oops");
}

#[test]
fn ends_of_commands() {
    assert_eq!(report(&CommandEnd::Done), (None, 0));
    assert_eq!(report(&CommandEnd::BrokenPipe), (None, 1));
    assert_eq!(
        report(&CommandEnd::Failed("oops".to_string())),
        (Some("Error: oops".to_string()), 1)
    );
}

#[test]
fn prompts() {
    assert_eq!(interactive_context(true), InteractiveContext::NotInteractive);
    assert_eq!(interactive_context(false), InteractiveContext::Terminal);
}

#[test]
fn log_styles() {
    assert_eq!(log_style("pijul::commands::git"), LogStyle::Plain);
    assert_eq!(log_style("pijul::commands"), LogStyle::Full);
    assert_eq!(log_style("pijul::commands::git2"), LogStyle::Full);
}
