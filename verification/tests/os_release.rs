use os_release::is_enclosed_with;
use os_release::parse_line;
use os_release::OsRelease;

const EXAMPLE: &str = r#"NAME="Arch Linux"
PRETTY_NAME="Arch Linux"
ID=arch
BUILD_ID=rolling
ANSI_COLOR="38;2;23;147;209"
HOME_URL="https://archlinux.org/"
DOCUMENTATION_URL="https://wiki.archlinux.org/"
SUPPORT_URL="https://archlinux.org/"
BUG_REPORT_URL="https://bugs.archlinux.org/"
LOGO=archlinux-logo
EXTRA_KEY=thing"#;

fn lines_of(text: &str) -> Vec<String> {
    text.lines().map(|x| x.to_string()).collect()
}

#[test]
fn os_release() {
    let os_release = OsRelease::from_iter(lines_of(EXAMPLE));

    assert_eq!(
        os_release,
        OsRelease {
            name: "Arch Linux".into(),
            pretty_name: "Arch Linux".into(),
            version: "".into(),
            id: "arch".into(),
            id_like: "".into(),
            version_id: "".into(),
            home_url: "https://archlinux.org/".into(),
            support_url: "https://archlinux.org/".into(),
            bug_report_url: "https://bugs.archlinux.org/".into(),
            privacy_policy_url: "".into(),
            version_codename: "".into(),
            logo: "archlinux-logo".into(),
            build_id: "rolling".into(),
            ansi_color: "38;2;23;147;209".into(),
            documentation_url: "https://wiki.archlinux.org/".into(),
            extra: vec![("EXTRA_KEY".to_string(), "thing".to_string())],
        }
    )
}

#[test]
fn empty_input_gives_default_record() {
    let os = OsRelease::from_iter(Vec::new());
    assert_eq!(os, OsRelease::default());
}

#[test]
fn single_assignment_sets_field() {
    let os = OsRelease::from_iter(lines_of("ID=arch"));
    assert_eq!(os.id, "arch");
    assert_eq!(os.name, "");
    assert!(os.extra.is_empty());
}

#[test]
fn whitespace_around_line_and_value_is_trimmed() {
    let os = OsRelease::from_iter(lines_of("   NAME=   hello   "));
    assert_eq!(os.name, "hello");
}

#[test]
fn last_well_known_assignment_wins() {
    let os = OsRelease::from_iter(lines_of("ID=a\nID=b"));
    assert_eq!(os.id, "b");
}

#[test]
fn last_overflow_assignment_wins() {
    let os = OsRelease::from_iter(lines_of("FOO=a\nBAR=x\nFOO=b"));
    assert_eq!(
        os.extra,
        vec![
            ("FOO".to_string(), "b".to_string()),
            ("BAR".to_string(), "x".to_string()),
        ]
    );
}

#[test]
fn line_without_equals_is_ignored() {
    let os = OsRelease::from_iter(lines_of("hello world\n\n   "));
    assert_eq!(os, OsRelease::default());
}

#[test]
fn empty_overflow_value_is_ignored() {
    let os = OsRelease::from_iter(lines_of("FOO="));
    assert!(os.extra.is_empty());
}

#[test]
fn double_quotes_are_stripped() {
    let os = OsRelease::from_iter(lines_of("NAME=\"Arch Linux\""));
    assert_eq!(os.name, "Arch Linux");
}

#[test]
fn single_quotes_are_stripped() {
    let os = OsRelease::from_iter(lines_of("VERSION='it'"));
    assert_eq!(os.version, "it");
}

#[test]
fn unquoted_value_is_unchanged() {
    let os = OsRelease::from_iter(lines_of("LOGO=archlinux-logo"));
    assert_eq!(os.logo, "archlinux-logo");
}

#[test]
fn mismatched_quotes_are_kept() {
    let os = OsRelease::from_iter(lines_of("NAME=\"abc'"));
    assert_eq!(os.name, "\"abc'");
}

#[test]
fn lone_quote_value_is_kept() {
    let os = OsRelease::from_iter(lines_of("NAME=\""));
    assert_eq!(os.name, "\"");
}

#[test]
fn quoted_empty_value_becomes_empty() {
    let os = OsRelease::from_iter(lines_of("NAME=\"\""));
    assert_eq!(os.name, "");
}

#[test]
fn unknown_key_goes_to_overflow_only() {
    let os = OsRelease::from_iter(lines_of("EXTRA_KEY=thing"));
    assert_eq!(
        os.extra,
        vec![("EXTRA_KEY".to_string(), "thing".to_string())]
    );
    assert_eq!(os.name, "");
    assert_eq!(os.id, "");
}

#[test]
fn overflow_value_is_kept_raw() {
    let os = OsRelease::from_iter(lines_of("X='it'"));
    assert_eq!(os.extra, vec![("X".to_string(), "'it'".to_string())]);
}

#[test]
fn id_like_is_distinct_from_id() {
    let os = OsRelease::from_iter(lines_of("ID_LIKE=arch"));
    assert_eq!(os.id_like, "arch");
    assert_eq!(os.id, "");
}

#[test]
fn version_keys_are_distinct() {
    let os = OsRelease::from_iter(lines_of("VERSION_ID=1\nVERSION_CODENAME=n\nVERSION=2"));
    assert_eq!(os.version_id, "1");
    assert_eq!(os.version_codename, "n");
    assert_eq!(os.version, "2");
}

#[test]
fn key_with_trailing_space_goes_to_overflow() {
    let os = OsRelease::from_iter(lines_of("NAME =x"));
    assert_eq!(os.name, "");
    assert_eq!(os.extra, vec![("NAME ".to_string(), "x".to_string())]);
}

#[test]
fn empty_key_goes_to_overflow() {
    let os = OsRelease::from_iter(lines_of("=x"));
    assert_eq!(os.extra, vec![("".to_string(), "x".to_string())]);
}

#[test]
fn round_trip_reproduces_record() {
    let first = OsRelease::from_iter(lines_of(EXAMPLE));
    let mut emitted: Vec<String> = vec![
        format!("ANSI_COLOR=\"{}\"", first.ansi_color),
        format!("BUILD_ID=\"{}\"", first.build_id),
        format!("BUG_REPORT_URL=\"{}\"", first.bug_report_url),
        format!("DOCUMENTATION_URL=\"{}\"", first.documentation_url),
        format!("HOME_URL=\"{}\"", first.home_url),
        format!("ID=\"{}\"", first.id),
        format!("ID_LIKE=\"{}\"", first.id_like),
        format!("LOGO=\"{}\"", first.logo),
        format!("NAME=\"{}\"", first.name),
        format!("PRETTY_NAME=\"{}\"", first.pretty_name),
        format!("PRIVACY_POLICY_URL=\"{}\"", first.privacy_policy_url),
        format!("SUPPORT_URL=\"{}\"", first.support_url),
        format!("VERSION=\"{}\"", first.version),
        format!("VERSION_ID=\"{}\"", first.version_id),
        format!("VERSION_CODENAME=\"{}\"", first.version_codename),
    ];
    for (k, v) in &first.extra {
        emitted.push(format!("{}={}", k, v));
    }
    let second = OsRelease::from_iter(emitted);
    assert_eq!(second, first);
}

#[test]
fn parse_line_trims_and_strips_quotes() {
    assert_eq!(parse_line("NAME=\"Arch Linux\"", 5), "Arch Linux");
    assert_eq!(parse_line("X=  42 ", 2), "42");
    assert_eq!(parse_line("X='it'", 2), "it");
    assert_eq!(parse_line("X=plain", 2), "plain");
}

#[test]
fn is_enclosed_with_checks_both_ends() {
    assert!(is_enclosed_with("\"abc\"", '"'));
    assert!(is_enclosed_with("'abc'", '\''));
    assert!(!is_enclosed_with("\"abc'", '"'));
    assert!(!is_enclosed_with("abc", '"'));
    assert!(!is_enclosed_with("", '"'));
    assert!(is_enclosed_with("\"", '"'));
}
