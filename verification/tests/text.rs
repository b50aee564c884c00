use std::str::FromStr;

use binum::Boolean;
use Boolean::{False, True};

#[test]
fn test_parse_any_casing() {
    for s in ["true", "True", "TRUE", "tRuE", "TRUe"] {
        assert_eq!(Boolean::from_str(s).unwrap(), True);
    }
    for s in ["false", "False", "FALSE", "fAlSe", "FALSe"] {
        assert_eq!(Boolean::from_str(s).unwrap(), False);
    }
}

#[test]
fn test_parse_rejections() {
    for s in ["", "ture", "fasle", "truee", "fals", " true", "false ", "yes", "no", "1", "0"] {
        assert!(Boolean::from_str(s).is_err());
    }
}

#[test]
fn test_parse_error_carries_text() {
    let e = Boolean::from_str("ture").unwrap_err();
    assert_eq!(e.text, "ture");
    let e = Boolean::from_str("").unwrap_err();
    assert_eq!(e.text, "");
}

#[test]
fn test_display_form() {
    assert_eq!(True.display(), "True");
    assert_eq!(False.display(), "False");
}
