use pimalaya_config::toml::load::{
    account_lookup, account_result, default_locations, first_existing, load_plan,
    merge_config_texts, parse_document, path_status, rc_file_name, target_choice, AccountLookup,
    ConfigBase, ConfigError, LoadPlan, PathStatus,
};
use pimalaya_config::toml::merge::merge_toml;
use pimalaya_config::toml::render::{bare_or_quoted, emit, to_string};
use pimalaya_config::toml::expand::{expanded_or_raw, shell_expanded};
use pimalaya_config::toml::value::TomlValue;

fn doc(s: &str) -> TomlValue {
    match parse_document(s) {
        Ok(v) => v,
        Err(err) => panic!("{}", err.message()),
    }
}

fn merge(base: &str, other: &str) -> Result<TomlValue, String> {
    merge_toml(doc(base), doc(other), "$").map_err(|err| ConfigError::Merge(err).message())
}

#[test]
fn to_string_keeps_only_account_headers_and_dots_the_rest() {
    let value = doc("[table]\n\
         [accounts.work]\n\
         default = true\n\
         [accounts.work.imap]\n\
         server = \"x\"\n\
         alpn = [\"imap\"]\n\
         [accounts.work.imap.sort]\n");

    let got = to_string(&value);

    // Empty `[table]` and `[…sort]` produce nothing; `imap` is flattened
    // into dotted keys; only the account is a header.
    assert_eq!(
        got,
        "[accounts.work]\ndefault = true\nimap.alpn = [\"imap\"]\nimap.server = \"x\"\n",
    );
}

#[test]
fn to_string_quotes_non_bare_account_names() {
    let value = doc("[accounts.\"work mail\"]\ndefault = true\n");
    let got = to_string(&value);
    assert_eq!(got, "[accounts.\"work mail\"]\ndefault = true\n");
}

#[test]
fn scalars_override_and_missing_keys_are_added() {
    let got = merge("a = 1\nkeep = true\n", "a = 2\nadded = \"x\"\n").unwrap();
    assert_eq!(got, doc("a = 2\nkeep = true\nadded = \"x\"\n"));
}

#[test]
fn arrays_are_concatenated() {
    let got = merge("xs = [1, 2]\n", "xs = [3]\n").unwrap();
    assert_eq!(got, doc("xs = [1, 2, 3]\n"));
}

#[test]
fn tables_are_merged_recursively() {
    let got = merge("[t]\na = 1\nb = 2\n", "[t]\nb = 3\nc = 4\n").unwrap();
    assert_eq!(got, doc("[t]\na = 1\nb = 3\nc = 4\n"));
}

#[test]
fn incompatible_types_are_an_error() {
    let err = merge("a = 1\n", "a = \"x\"\n").unwrap_err();
    assert!(err.contains("incompatible types at `$.a`"), "{err}");
}

#[test]
fn a_nested_conflict_names_its_full_path_and_both_kinds() {
    let err = merge("[t.u]\nv = [1]\n", "[t.u]\nv = { w = 1 }\n").unwrap_err();
    assert_eq!(
        err,
        "Merge TOML subconfigs error: incompatible types at `$.t.u.v`, base is array, override is table"
    );
}

#[test]
fn floats_and_datetimes_override_their_own_kind() {
    let got = merge("f = 1.5\nd = 1979-05-27\n", "f = 2.5\nd = 2000-01-01\n").unwrap();
    assert_eq!(got, doc("f = 2.5\nd = 2000-01-01\n"));
    assert!(merge("f = 1.5\n", "f = 2\n").is_err());
}

#[test]
fn merging_does_not_depend_on_grouping() {
    let a = "x = 1\nxs = [1]\n[t]\nu = 1\n[t.v]\nw = true\n";
    let b = "x = 2\nxs = [2]\n[t]\nu = 3\n[t.v]\nz = \"b\"\n";
    let c = "y = 0\nxs = [3]\n[t.v]\nw = false\n[s]\nq = 1\n";
    let left = merge_toml(merge_toml(doc(a), doc(b), "$").unwrap(), doc(c), "$").unwrap();
    let right = merge_toml(doc(a), merge_toml(doc(b), doc(c), "$").unwrap(), "$").unwrap();
    assert_eq!(left, right);
    assert_eq!(
        left,
        doc("x = 2\ny = 0\nxs = [1, 2, 3]\n[t]\nu = 3\n[t.v]\nw = false\nz = \"b\"\n[s]\nq = 1\n")
    );
}

#[test]
fn array_elements_are_never_compared() {
    let got = merge("a = [1, { b = 1 }]\n", "a = [\"s\", { b = \"t\" }]\n").unwrap();
    assert_eq!(got, doc("a = [1, { b = 1 }, \"s\", { b = \"t\" }]\n"));
    assert!(merge("[t]\nu = 1\n", "[s]\nu = \"x\"\n").is_ok());
}

#[test]
fn an_empty_override_changes_nothing() {
    let base = "a = 1\n[t]\nb = [true]\n";
    assert_eq!(merge(base, "").unwrap(), doc(base));
}

#[test]
fn a_table_without_accounts_is_a_flat_list() {
    let value = doc("name = \"me\"\n[a.b]\nc = 1\n[empty]\n");
    assert_eq!(to_string(&value), "a.b.c = 1\nname = \"me\"\n");
}

#[test]
fn a_scalar_root_renders_inline() {
    assert_eq!(to_string(&TomlValue::Integer(42)), "42");
    assert_eq!(to_string(&TomlValue::String(String::from("x"))), "\"x\"");
}

#[test]
fn bare_keys_stay_bare_and_others_are_quoted() {
    assert_eq!(bare_or_quoted("imap-1_b"), "imap-1_b");
    assert_eq!(bare_or_quoted(""), "\"\"");
    assert_eq!(bare_or_quoted("a.b"), "\"a.b\"");
    assert_eq!(bare_or_quoted("say \"hi\""), "\"say \\\"hi\\\"\"");
    assert_eq!(bare_or_quoted("a\\b"), "\"a\\\\b\"");
    assert_eq!(bare_or_quoted("\u{1}"), "\"\\u0001\"");
    assert_eq!(bare_or_quoted("\0"), "\"\\u0000\"");
    assert_eq!(bare_or_quoted("\u{1f}\u{7f}"), "\"\\u001F\\u007F\"");
    assert_eq!(bare_or_quoted("a\tb\nc\r\u{8}\u{c}"), "\"a\\tb\\nc\\r\\b\\f\"");
    assert_eq!(bare_or_quoted("été"), "\"été\"");
}

#[test]
fn quoted_keys_read_back_as_the_same_key() {
    for key in ["a.b", "\u{1}", "say \"hi\"", "a\\b", "tab\there", "\u{7f}", "été", ""] {
        let line = format!("{} = 1\n", bare_or_quoted(key));
        let value: toml::Value = toml::from_str(&line).unwrap();
        let table = value.as_table().unwrap();
        assert_eq!(table.keys().collect::<Vec<_>>(), vec![key]);
    }
}

#[test]
fn only_account_headers_start_a_line_with_a_bracket() {
    let value = doc("name = \"me\"\nlist = [1, [2]]\n[a.b]\nc = { d = 1 }\n\
         [accounts.work]\nx = [\"[y]\"]\n[accounts.\"p q\".z]\nw = 1\n");
    let got = to_string(&value);
    assert_eq!(
        got,
        "a.b.c.d = 1\nlist = [1, [2]]\nname = \"me\"\n\n\
         [accounts.\"p q\"]\nz.w = 1\n\n\
         [accounts.work]\nx = [\"[y]\"]\n"
    );
    for line in got.lines().filter(|l| l.starts_with('[')) {
        assert!(line.starts_with("[accounts."), "{line}");
    }
}

#[test]
fn a_multi_line_string_value_can_start_a_line_with_a_bracket() {
    let got = to_string(&doc("x = \"a\\n[b]\"\n"));
    assert!(got.lines().any(|l| l.starts_with("[b]")), "{got}");
}

#[test]
fn a_non_table_accounts_value_is_written_like_any_other_key() {
    let value = doc("accounts = 5\nx = 1\n");
    assert_eq!(to_string(&value), "accounts = 5\nx = 1\n");
}

#[test]
fn emit_flattens_nested_tables_under_the_key() {
    let value = doc("[x.y]\nz = 1\n");
    let mut out = String::from("# head\n");
    emit(&mut out, "root", &value);
    assert_eq!(out, "# head\nroot.x.y.z = 1\n");
}

#[test]
fn every_configuration_file_must_be_read_and_parsed() {
    let missing = || std::io::Error::new(std::io::ErrorKind::NotFound, "gone");
    match merge_config_texts(Vec::new()) {
        Err(err @ ConfigError::EmptyPaths) => {
            assert_eq!(err.message(), "Read TOML config from empty paths error")
        }
        other => panic!("unexpected {other:?}"),
    }
    match merge_config_texts(vec![Err(missing()), Ok(String::from("a = 1\n"))]) {
        Err(err @ ConfigError::Read(_)) => assert_eq!(err.message(), "Read TOML config file error"),
        other => panic!("unexpected {other:?}"),
    }
    match merge_config_texts(vec![
        Ok(String::from("a = 1\n")),
        Err(missing()),
        Ok(String::from("b = 2\n")),
    ]) {
        Err(err @ ConfigError::Read(_)) => assert_eq!(err.message(), "Read TOML config file error"),
        other => panic!("unexpected {other:?}"),
    }
    match merge_config_texts(vec![
        Ok(String::from("a = 1\n")),
        Ok(String::from("a = [")),
        Err(missing()),
    ]) {
        Err(ConfigError::Parse(_)) => {}
        other => panic!("unexpected {other:?}"),
    }
    let merged = merge_config_texts(vec![
        Ok(String::from("a = 1\n")),
        Ok(String::from("b = 2\n")),
    ])
    .unwrap();
    assert_eq!(merged, doc("a = 1\nb = 2\n"));
    match merge_config_texts(vec![Ok(String::from("a = 1\n")), Ok(String::from("a = ["))]) {
        Err(err @ ConfigError::Parse(_)) => assert_eq!(err.message(), "Parse TOML config error"),
        other => panic!("unexpected {other:?}"),
    }
    match merge_config_texts(vec![Ok(String::from("a = 1\n")), Ok(String::from("a = []\n"))]) {
        Err(ConfigError::Merge(conflict)) => assert_eq!(conflict.path, "$.a"),
        other => panic!("unexpected {other:?}"),
    }
}

#[test]
fn an_account_name_selects_the_default_or_a_named_account() {
    assert!(matches!(account_lookup(None), AccountLookup::Default));
    assert!(matches!(account_lookup(Some("")), AccountLookup::Default));
    assert!(matches!(account_lookup(Some("default")), AccountLookup::Default));
    match account_lookup(Some("work")) {
        AccountLookup::Named(name) => assert_eq!(name, "work"),
        AccountLookup::Default => panic!("a name selects its account"),
    }

    let none: Option<(String, u8)> = None;
    assert!(matches!(account_result(AccountLookup::Default, none), Ok(None)));
    match account_result(AccountLookup::Named(String::from("work")), None::<(String, u8)>) {
        Err(err @ ConfigError::AccountNotFound(_)) => {
            assert_eq!(err.message(), "Get account `work` error")
        }
        other => panic!("unexpected {other:?}"),
    }
    let found = account_result(
        AccountLookup::Named(String::from("work")),
        Some((String::from("work"), 7u8)),
    );
    assert!(matches!(found, Ok(Some((_, 7)))));
}

#[test]
fn a_missing_explicit_path_means_no_configuration() {
    assert!(matches!(load_plan(None), LoadPlan::Defaults));
    assert!(matches!(load_plan(Some(PathStatus::Missing)), LoadPlan::NoConfig));
    assert!(matches!(load_plan(Some(PathStatus::Present)), LoadPlan::Paths));
}

#[test]
fn only_a_path_that_is_not_there_is_missing() {
    assert!(matches!(path_status("/etc/x.toml", Ok(())), Ok(PathStatus::Present)));
    let gone = std::io::Error::new(std::io::ErrorKind::NotFound, "gone");
    assert!(matches!(path_status("/etc/x.toml", Err(gone)), Ok(PathStatus::Missing)));
    let denied = std::io::Error::new(std::io::ErrorKind::PermissionDenied, "denied");
    match path_status("/etc/x.toml", Err(denied)) {
        Err(err @ ConfigError::Stat { .. }) => {
            assert_eq!(err.message(), "Stat TOML config file `/etc/x.toml` error")
        }
        other => panic!("unexpected {other:?}"),
    }
}

#[test]
fn a_new_configuration_goes_where_one_is_read_from() {
    assert_eq!(target_choice(Some(1), Some(2), Ok(3)).unwrap(), 1);
    assert_eq!(target_choice(None, Some(2), Ok(3)).unwrap(), 2);
    assert_eq!(target_choice(None, None, Ok(3)).unwrap(), 3);
    assert!(matches!(
        target_choice(None::<u8>, None, Err(ConfigError::NoConfigDir)),
        Err(ConfigError::NoConfigDir)
    ));
}

#[test]
fn default_locations_are_tried_in_order() {
    let locations = default_locations("himalaya");
    assert_eq!(locations.len(), 3);
    assert_eq!(locations[0].base, ConfigBase::ConfigDir);
    assert_eq!(locations[0].components, vec!["himalaya", "config.toml"]);
    assert_eq!(locations[1].base, ConfigBase::HomeDir);
    assert_eq!(locations[1].components, vec![".config", "himalaya", "config.toml"]);
    assert_eq!(locations[2].components, vec![".himalayarc"]);
    assert_eq!(rc_file_name("neverest"), ".neverestrc");
    assert_eq!(first_existing(vec![(1, false), (2, true), (3, true)]), Some(2));
    assert_eq!(first_existing(vec![(1, false)]), None);
}

#[test]
fn expansion_failures_leave_the_raw_value() {
    assert_eq!(shell_expanded("plain/path"), "plain/path");
    assert_eq!(
        shell_expanded("$PIMALAYA_CONFIG_SURELY_UNDEFINED_VARIABLE/x"),
        "$PIMALAYA_CONFIG_SURELY_UNDEFINED_VARIABLE/x"
    );
    assert_ne!(shell_expanded("$PATH"), "$PATH");
    assert_eq!(expanded_or_raw("$HOME", Some(String::from("/home/me"))), "/home/me");
    assert_eq!(expanded_or_raw("$NOPE", None), "$NOPE");
}
