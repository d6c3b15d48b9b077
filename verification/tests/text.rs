use record_batch_projector::error::Source;
use record_batch_projector::text::{split_path, write_decimal};
use record_batch_projector::{Error, ErrorKind};

fn pieces(text: &str) -> Vec<String> {
    split_path(text)
}

#[test]
fn split_at_every_dot() {
    assert_eq!(pieces("a.b.c"), vec!["a", "b", "c"]);
    assert_eq!(pieces("plain"), vec!["plain"]);
    assert_eq!(pieces(""), vec![""]);
    assert_eq!(pieces("."), vec!["", ""]);
    assert_eq!(pieces(".a..b."), vec!["", "a", "", "b", ""]);
    assert_eq!(pieces("größe.höhe"), vec!["größe", "höhe"]);
}

#[test]
fn split_and_join_undo_each_other() {
    for text in ["", ".", "a", "a.b", "..x..", "field2.inner_field1"] {
        assert_eq!(pieces(text).join("."), text);
    }
    for parts in [vec!["a"], vec!["", ""], vec!["x", "", "y"]] {
        assert_eq!(pieces(&parts.join(".")), parts);
    }
}

#[test]
fn decimal_numbers() {
    assert_eq!(write_decimal(0), "0");
    assert_eq!(write_decimal(7), "7");
    assert_eq!(write_decimal(10), "10");
    assert_eq!(write_decimal(-305), "-305");
    assert_eq!(write_decimal(i32::MAX), "2147483647");
    assert_eq!(write_decimal(i32::MIN), "-2147483648");
}

#[test]
fn decimal_numbers_read_back() {
    for n in [0, 1, -1, 9, 10, 99, -100, 123456789, i32::MAX, i32::MIN] {
        assert_eq!(write_decimal(n).parse::<i64>(), Ok(n as i64));
    }
}

#[test]
fn error_parts() {
    let error = Error::new(ErrorKind::Unexpected, "went wrong");
    assert_eq!(error.kind(), ErrorKind::Unexpected);
    assert_eq!(error.message(), "went wrong");
    assert!(error.context.is_empty());
    assert!(error.source.is_none());

    let cause = "x".parse::<i32>().unwrap_err();
    let error = error
        .with_context("first", "1")
        .with_context("second", "2")
        .with_source(Source::ParseInt(cause.clone()));
    assert_eq!(error.kind(), ErrorKind::Unexpected);
    assert_eq!(error.message(), "went wrong");
    assert_eq!(
        error.context,
        vec![
            ("first".to_string(), "1".to_string()),
            ("second".to_string(), "2".to_string()),
        ]
    );
    match error.source {
        Some(Source::ParseInt(source)) => assert_eq!(source, cause),
        other => panic!("unexpected cause {other:?}"),
    }
}

#[test]
fn error_as_text() {
    assert_eq!(Error::new(ErrorKind::DataInvalid, "").to_string(), "DataInvalid");
    assert_eq!(
        Error::new(ErrorKind::DataInvalid, "bad").to_string(),
        "DataInvalid => bad"
    );
    assert_eq!(
        Error::new(ErrorKind::Unexpected, "bad")
            .with_context("a", "1")
            .to_string(),
        "Unexpected, context: { a: 1 } => bad"
    );
    assert_eq!(
        Error::new(ErrorKind::Unexpected, "")
            .with_context("a", "1")
            .with_context("b", "2")
            .to_string(),
        "Unexpected, context: { a: 1, b: 2 }"
    );
}
