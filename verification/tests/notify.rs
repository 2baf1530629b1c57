use pimalaya_config::notify::{Notification, NotifyError};

/// Reads the `notify` table of a document as the library's notification.
fn read(doc: &str) -> Result<Notification, NotifyError> {
    let table: toml::Table = toml::from_str(doc).expect("a TOML document");
    let notify = table["notify"].as_table().expect("a table");
    let fields = notify
        .iter()
        .map(|(k, v)| (k.clone(), v.as_str().expect("a string").to_owned()))
        .collect();
    Notification::from_fields(fields)
}

/// Writes a notification back as the `notify` table of a document.
fn write(notification: &Notification) -> String {
    let mut notify = toml::Table::new();
    for (k, v) in notification.to_fields() {
        notify.insert(k, toml::Value::String(v));
    }
    let mut table = toml::Table::new();
    table.insert("notify".to_owned(), toml::Value::Table(notify));
    toml::to_string(&table).expect("serialize the notification")
}

#[test]
fn a_summary_and_a_body_round_trip() {
    let hook = read(r#"notify = { summary = "Comodoro", body = "Work started!" }"#)
        .expect("deserialize the notification");

    assert_eq!(hook.summary, "Comodoro");
    assert_eq!(hook.body, "Work started!");

    let toml = write(&hook);
    let hook = read(&toml).expect("deserialize it back");

    assert_eq!(hook.summary, "Comodoro");
    assert_eq!(hook.body, "Work started!");
}

#[test]
fn a_body_is_optional_and_never_written_empty() {
    let hook = read(r#"notify = { summary = "Comodoro" }"#).expect("deserialize the notification");

    assert_eq!(hook.summary, "Comodoro");
    assert!(hook.body.is_empty());

    let toml = write(&hook);

    assert!(!toml.contains("body"));
}

#[test]
fn a_notification_with_nothing_to_show_is_refused() {
    // A blank summary renders as an empty notification bubble, which is
    // a configuration mistake rather than an intent.
    assert!(read(r#"notify = { summary = "" }"#).is_err());
    assert!(read(r#"notify = { summary = "  " }"#).is_err());
    assert!(read(r#"notify = { body = "orphan" }"#).is_err());

    // A typo is caught rather than silently dropped.
    assert!(read(r#"notify = { summary = "s", tittle = "t" }"#).is_err());
}

#[test]
fn each_refusal_names_its_reason() {
    assert_eq!(
        read(r#"notify = { summary = "  " }"#).unwrap_err().message(),
        "notification summary is empty"
    );
    assert_eq!(
        read(r#"notify = { body = "orphan" }"#).unwrap_err().message(),
        "missing field `summary`"
    );
    assert_eq!(
        read(r#"notify = { summary = "s", tittle = "t" }"#)
            .unwrap_err()
            .message(),
        "unknown field `tittle`, expected `summary` or `body`"
    );
    let twice = vec![
        (String::from("summary"), String::from("a")),
        (String::from("summary"), String::from("b")),
    ];
    assert_eq!(
        Notification::from_fields(twice).unwrap_err(),
        NotifyError::DuplicateField("summary")
    );
}
