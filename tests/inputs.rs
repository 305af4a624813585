use modulo::error::OrderError;
use modulo::prefs::{default_transparency_enabled, validate_theme, AppPreferences};
use modulo::text::{
    is_board_icon, is_column_icon, normalize_board_icon, normalize_column_color,
    normalize_column_icon, normalize_optional_text, normalize_tag_color,
    normalize_workspace_color, parse_color, plain_file_name, validate_filename,
    validate_string_input,
};
use modulo::validate::{check_belongs, check_move, validate_priority, Placement};

fn s(x: &str) -> String {
    x.to_string()
}

#[test]
fn color_absent_or_blank_is_none() {
    assert_eq!(normalize_column_color(None), Ok(None));
    assert_eq!(normalize_column_color(Some(s("   "))), Ok(None));
    assert_eq!(normalize_tag_color(Some(s(""))), Ok(None));
}

#[test]
fn color_is_trimmed() {
    assert_eq!(
        normalize_column_color(Some(s("  #6366F1 "))),
        Ok(Some(s("#6366F1")))
    );
    assert_eq!(
        normalize_workspace_color(Some(s("#a0b1c2"))),
        Ok(Some(s("#a0b1c2")))
    );
}

#[test]
fn bad_colors_are_refused() {
    assert!(normalize_column_color(Some(s("#12345"))).is_err());
    assert!(normalize_column_color(Some(s("#1234567"))).is_err());
    assert!(normalize_workspace_color(Some(s("6366F1a"))).is_err());
    assert!(normalize_tag_color(Some(s("#GGGGGG"))).is_err());
    assert!(normalize_tag_color(Some(s("#ééééé"))).is_err());
}

#[test]
fn parse_color_on_trimmed_text() {
    assert_eq!(parse_color(""), Ok(None));
    assert_eq!(parse_color("#ABCDEF"), Ok(Some(s("#ABCDEF"))));
    assert_eq!(parse_color(" #ABCDEF"), Err(()));
}

#[test]
fn optional_text_is_trimmed_or_dropped() {
    assert_eq!(normalize_optional_text(None), None);
    assert_eq!(normalize_optional_text(Some(s(" \t "))), None);
    assert_eq!(normalize_optional_text(Some(s("  hi  "))), Some(s("hi")));
}

#[test]
fn string_input_length_limit() {
    assert!(validate_string_input("abc", 3, "Name").is_ok());
    let e = validate_string_input("abcd", 3, "Name").unwrap_err();
    assert_eq!(e, "Name too long (max 3 characters)");
    assert!(validate_string_input("ééé", 5, "Title").is_err());
}

#[test]
fn preferences_defaults() {
    let p = AppPreferences::default();
    assert_eq!(p.theme, "system");
    assert!(p.transparency_enabled);
    assert_eq!(p.last_workspace_id, None);
    assert!(default_transparency_enabled());
}

#[test]
fn themes_and_priorities() {
    assert!(validate_theme("dark").is_ok());
    assert!(validate_theme("light").is_ok());
    assert!(validate_theme("system").is_ok());
    assert!(validate_theme("blue").is_err());
    assert!(validate_priority("high").is_ok());
    assert!(validate_priority("none").is_ok());
    assert!(validate_priority("urgent").is_err());
}

#[test]
fn belongs_check() {
    assert_eq!(check_belongs(None, &s("b1")), Err(OrderError::NotFound));
    assert_eq!(
        check_belongs(Some(s("b2")), &s("b1")),
        Err(OrderError::OwnershipViolation)
    );
    assert_eq!(check_belongs(Some(s("b1")), &s("b1")), Ok(()));
}

#[test]
fn move_checks() {
    let at = |scope: &str, owner: &str| {
        Some(Placement {
            scope: s(scope),
            owner: s(owner),
        })
    };
    let (b, c1, c2) = (s("board"), s("col1"), s("col2"));
    assert_eq!(
        check_move(None, &b, &c1, &c2, Some(s("board"))),
        Err(OrderError::NotFound)
    );
    assert_eq!(
        check_move(at("col1", "other"), &b, &c1, &c2, Some(s("board"))),
        Err(OrderError::OwnershipViolation)
    );
    assert_eq!(
        check_move(at("col3", "board"), &b, &c1, &c2, Some(s("board"))),
        Err(OrderError::OwnershipViolation)
    );
    assert_eq!(
        check_move(at("col1", "board"), &b, &c1, &c2, None),
        Err(OrderError::NotFound)
    );
    assert_eq!(
        check_move(at("col1", "board"), &b, &c1, &c2, Some(s("elsewhere"))),
        Err(OrderError::ScopeMismatch)
    );
    assert_eq!(
        check_move(at("col1", "board"), &b, &c1, &c2, Some(s("board"))),
        Ok(())
    );
    assert_eq!(check_move(at("col1", "board"), &b, &c1, &c1, None), Ok(()));
}

#[test]
fn column_icons() {
    assert_eq!(normalize_column_icon(None), Ok(None));
    assert_eq!(normalize_column_icon(Some(s("  "))), Ok(None));
    assert_eq!(normalize_column_icon(Some(s(" Zap "))), Ok(Some(s("Zap"))));
    assert!(normalize_column_icon(Some(s("Folder"))).is_err());
    assert!(is_column_icon("BadgeCheck"));
    assert!(!is_column_icon("zap"));
}

#[test]
fn board_icons() {
    assert_eq!(normalize_board_icon(None), Ok(s("Folder")));
    assert_eq!(normalize_board_icon(Some(s(" \n"))), Ok(s("Folder")));
    assert_eq!(normalize_board_icon(Some(s("Rocket "))), Ok(s("Rocket")));
    assert!(normalize_board_icon(Some(s("Zap"))).is_err());
    assert!(is_board_icon("PenTool"));
    assert!(!is_board_icon("Circle"));
}

#[test]
fn file_names() {
    assert!(validate_filename("report.pdf").is_ok());
    assert!(validate_filename("my_file-1").is_ok());
    assert!(validate_filename("a.b").is_ok());
    assert_eq!(
        validate_filename(""),
        Err(s("Filename cannot be empty"))
    );
    assert!(validate_filename("a.b.c").is_err());
    assert!(validate_filename(".hidden").is_err());
    assert!(validate_filename("name.").is_err());
    assert!(validate_filename("bad name.txt").is_err());
    assert!(validate_filename("\u{fc}.txt").is_err());
    assert!(validate_filename("x.t_t").is_err());
    let long = "a".repeat(101);
    assert_eq!(
        validate_filename(&long),
        Err(s("Filename too long (max 100 characters)"))
    );
    assert!(validate_filename(&"a".repeat(100)).is_ok());
    assert!(plain_file_name("abc"));
    assert!(!plain_file_name(""));
}
