//! The wizard serializer: a compact TOML document whose only table
//! headers are the accounts (`[accounts.<name>]`), every other table
//! flattened into dotted keys, and empty tables left out.

use vstd::prelude::*;

use super::convert::{inline_text, toml_inline};
use super::value::{entries_tree, lemma_get_index, lemma_table_tree, table_get, TomlTree, TomlValue};
use crate::text::{chars_of, push_char, same_text};

verus! {

/// A character a bare TOML key may hold: an ASCII letter or digit, `-`
/// or `_`.
pub open spec fn is_bare_char(c: char) -> bool {
    ('a' <= c && c <= 'z') || ('A' <= c && c <= 'Z') || ('0' <= c && c <= '9') || c == '-' || c
        == '_'
}

/// Whether `k` can be written as a bare TOML key.
pub open spec fn is_bare_key(k: Seq<char>) -> bool {
    k.len() > 0 && forall|i: int| 0 <= i < k.len() ==> is_bare_char(#[trigger] k[i])
}

/// The digit of `d` (below sixteen) in upper-case hexadecimal.
pub open spec fn hex_digit(d: int) -> char {
    if d < 10 {
        (48 + d) as char
    } else {
        (55 + d) as char
    }
}

/// Whether `c` is a control character that a TOML basic string cannot
/// hold as itself: U+0000 to U+001F and U+007F.
pub open spec fn is_control(c: char) -> bool {
    (c as u32) < 0x20 || (c as u32) == 0x7f
}

/// How a character is written inside a TOML basic string: the quotation
/// mark and the backslash behind a backslash, a control character as
/// its short escape where TOML has one (`\b`, `\t`, `\n`, `\f`,
/// `\r`) and as `\u00XX` otherwise, any other character as itself.
pub open spec fn escape_char(c: char) -> Seq<char> {
    if c == '"' {
        seq!['\\', '"']
    } else if c == '\\' {
        seq!['\\', '\\']
    } else if c == '\u{8}' {
        seq!['\\', 'b']
    } else if c == '\t' {
        seq!['\\', 't']
    } else if c == '\n' {
        seq!['\\', 'n']
    } else if c == '\u{c}' {
        seq!['\\', 'f']
    } else if c == '\r' {
        seq!['\\', 'r']
    } else if is_control(c) {
        seq![
            '\\',
            'u',
            '0',
            '0',
            hex_digit((c as u32) as int / 16),
            hex_digit((c as u32) as int % 16),
        ]
    } else {
        seq![c]
    }
}

/// The characters of `s`, each as it is written inside a TOML basic
/// string.
pub open spec fn escaped(s: Seq<char>) -> Seq<char>
    decreases s.len(),
{
    if s.len() == 0 {
        Seq::empty()
    } else {
        escaped(s.drop_last()) + escape_char(s.last())
    }
}

/// A key as the serializer writes it: bare when it can be, and otherwise
/// a TOML basic string, the key escaped between quotation marks.
pub open spec fn key_text(k: Seq<char>) -> Seq<char> {
    if is_bare_key(k) {
        k
    } else {
        seq!['"'] + escaped(k) + seq!['"']
    }
}

/// The lines written for `item` under the (already written) key `key`:
/// a table's entries as dotted keys below it, recursively, and any
/// other value as one `key = value` line. An empty table writes nothing.
pub open spec fn emit_text(key: Seq<char>, item: TomlTree) -> Seq<char>
    decreases item, 0int,
{
    match item {
        TomlTree::Table(s) => emit_entries(key, s, 0),
        _ => key + " = "@ + toml_inline(item) + "\n"@,
    }
}

/// The lines written for the entries `s[i..]` of a table under `key`.
pub open spec fn emit_entries(key: Seq<char>, s: Seq<(Seq<char>, TomlTree)>, i: int) -> Seq<char>
    decreases s, s.len() - i,
{
    if 0 <= i < s.len() {
        proof {
            assert(decreases_to!(s => s[i]));
        }
        emit_text(key + "."@ + key_text(s[i].0), s[i].1) + emit_entries(key, s, i + 1)
    } else {
        Seq::empty()
    }
}

/// The lines written for the top-level entries `s[i..]`, each under its
/// own key, leaving out the entry `accounts` when `skip_accounts`.
pub open spec fn emit_top(s: Seq<(Seq<char>, TomlTree)>, i: int, skip_accounts: bool) -> Seq<char>
    decreases s.len() - i,
{
    if 0 <= i < s.len() {
        let rest = emit_top(s, i + 1, skip_accounts);
        if skip_accounts && s[i].0 == "accounts"@ {
            rest
        } else {
            emit_text(key_text(s[i].0), s[i].1) + rest
        }
    } else {
        Seq::empty()
    }
}

/// The account sections appended to `out` for the accounts `a[i..]`:
/// each a blank line when something was written before, the header, and
/// the account's fields.
pub open spec fn emit_accounts(out: Seq<char>, a: Seq<(Seq<char>, TomlTree)>, i: int) -> Seq<char>
    decreases a.len() - i,
{
    if 0 <= i < a.len() {
        let sep = if out.len() > 0 {
            "\n"@
        } else {
            Seq::empty()
        };
        let header = "[accounts."@ + key_text(a[i].0) + "]\n"@;
        let fields = match a[i].1 {
            TomlTree::Table(f) => emit_top(f, 0, false),
            _ => Seq::empty(),
        };
        emit_accounts(out + sep + header + fields, a, i + 1)
    } else {
        out
    }
}

/// The document the wizard serializer writes for `v`: for a table, its
/// top-level entries as dotted keys, then, when it holds an `accounts`
/// table, that table's entries as account sections instead of an entry;
/// any other value on one line.
pub open spec fn document_text(v: TomlTree) -> Seq<char> {
    match v {
        TomlTree::Table(root) => match table_get(root, "accounts"@) {
            Some(TomlTree::Table(a)) => emit_accounts(emit_top(root, 0, true), a, 0),
            _ => emit_top(root, 0, false),
        },
        _ => toml_inline(v),
    }
}

/// Renders a table key bare when it is a valid TOML bare key (ASCII
/// alphanumerics, `-` and `_`), quoting it as a basic string otherwise.
pub fn bare_or_quoted(key: &str) -> (res: String)
    ensures
        res@ == key_text(key@),
{
    let v = chars_of(key);
    let mut bare = v.len() > 0;
    let mut i: usize = 0;
    while i < v.len()
        invariant
            v@ == key@,
            0 <= i <= v.len(),
            bare == (v.len() > 0 && forall|k: int| 0 <= k < i ==> is_bare_char(#[trigger] v@[k])),
        decreases v.len() - i,
    {
        let c = v[i];
        let ok = ('a' <= c && c <= 'z') || ('A' <= c && c <= 'Z') || ('0' <= c && c <= '9') || c
            == '-' || c == '_';
        bare = bare && ok;
        i = i + 1;
    }
    if bare {
        String::from_str(key)
    } else {
        let mut out = String::new();
        push_char(&mut out, '"');
        let mut i: usize = 0;
        while i < v.len()
            invariant
                v@ == key@,
                0 <= i <= v.len(),
                out@ == seq!['"'] + escaped(v@.take(i as int)),
            decreases v.len() - i,
        {
            push_escaped(&mut out, v[i]);
            proof {
                assert(v@.take(i + 1).drop_last() =~= v@.take(i as int));
            }
            i = i + 1;
        }
        push_char(&mut out, '"');
        proof {
            assert(v@.take(i as int) =~= key@);
        }
        out
    }
}

/// Appends `c` to `out` as it is written inside a TOML basic string.
fn push_escaped(out: &mut String, c: char)
    ensures
        final(out)@ == old(out)@ + escape_char(c),
{
    let short = if c == '"' {
        '"'
    } else if c == '\\' {
        '\\'
    } else if c == '\u{8}' {
        'b'
    } else if c == '\t' {
        't'
    } else if c == '\n' {
        'n'
    } else if c == '\u{c}' {
        'f'
    } else if c == '\r' {
        'r'
    } else {
        ' '
    };
    if short != ' ' {
        push_char(out, '\\');
        push_char(out, short);
    } else {
        let code = c as u32;
        if code < 0x20 || code == 0x7f {
            push_char(out, '\\');
            push_char(out, 'u');
            push_char(out, '0');
            push_char(out, '0');
            push_char(out, hex_char(code / 16));
            push_char(out, hex_char(code % 16));
        } else {
            push_char(out, c);
        }
    }
    proof {
        assert(final(out)@ =~= old(out)@ + escape_char(c));
    }
}

/// The upper-case hexadecimal digit of `d`.
fn hex_char(d: u32) -> (res: char)
    requires
        d < 16,
    ensures
        res == hex_digit(d as int),
{
    let b = d as u8;
    if b < 10 {
        (48u8 + b) as char
    } else {
        (55u8 + b) as char
    }
}

/// Writes the config entry `item` rooted at `key`: a nested table is
/// flattened into dotted keys (recursing so `a.b.c = …`), while a scalar
/// or an array renders on a single line through the inline form of
/// `toml`. An empty table writes nothing.
pub fn emit(out: &mut String, key: &str, item: &TomlValue)
    ensures
        final(out)@ == old(out)@ + emit_text(key@, item.tree()),
    decreases item,
{
    match item {
        TomlValue::Table(t) => {
            proof {
                lemma_table_tree(*t);
            }
            let ghost s = entries_tree(t@);
            let ghost start = out@;
            let mut i: usize = 0;
            #[verifier::loop_isolation(false)]
            while i < t.len()
                invariant
                    0 <= i <= t.len(),
                    s == entries_tree(t@),
                    out@ + emit_entries(key@, s, i as int) == start + emit_entries(key@, s, 0),
                decreases t.len() - i,
            {
                let mut dotted = String::from_str(key);
                dotted.append(".");
                let sub = bare_or_quoted(t[i].0.as_str());
                dotted.append(sub.as_str());
                proof {
                    assert(s[i as int] == (t@[i as int].0@, t@[i as int].1.tree()));
                    assert(decreases_to!(*item => t@[i as int].1));
                }
                let ghost before = out@;
                emit(out, dotted.as_str(), &t[i].1);
                proof {
                    assert(emit_entries(key@, s, i as int) == emit_text(
                        key@ + "."@ + key_text(s[i as int].0),
                        s[i as int].1,
                    ) + emit_entries(key@, s, i + 1));
                    assert(out@ + emit_entries(key@, s, i + 1) =~= before + emit_entries(
                        key@,
                        s,
                        i as int,
                    ));
                }
                i = i + 1;
            }
            proof {
                assert(emit_entries(key@, s, i as int) =~= Seq::<char>::empty());
                assert(out@ =~= out@ + emit_entries(key@, s, i as int));
            }
        },
        _ => {
            out.append(key);
            out.append(" = ");
            let text = inline_text(item);
            out.append(text.as_str());
            out.append("\n");
            proof {
                assert(final(out)@ =~= old(out)@ + emit_text(key@, item.tree()));
            }
        },
    }
}

/// Writes the top-level entries of `t`, each under its own key, leaving
/// out `accounts` when `skip_accounts`.
fn emit_top_entries(out: &mut String, t: &Vec<(String, TomlValue)>, skip_accounts: bool)
    ensures
        final(out)@ == old(out)@ + emit_top(entries_tree(t@), 0, skip_accounts),
{
    let ghost s = entries_tree(t@);
    let ghost start = out@;
    let mut i: usize = 0;
    while i < t.len()
        invariant
            0 <= i <= t.len(),
            s == entries_tree(t@),
            out@ + emit_top(s, i as int, skip_accounts) == start + emit_top(s, 0, skip_accounts),
        decreases t.len() - i,
    {
        proof {
            assert(s[i as int] == (t@[i as int].0@, t@[i as int].1.tree()));
        }
        let ghost before = out@;
        let skip = skip_accounts && same_text(t[i].0.as_str(), "accounts");
        if !skip {
            let key = bare_or_quoted(t[i].0.as_str());
            emit(out, key.as_str(), &t[i].1);
        }
        proof {
            assert(out@ + emit_top(s, i + 1, skip_accounts) =~= before + emit_top(
                s,
                i as int,
                skip_accounts,
            ));
        }
        i = i + 1;
    }
    proof {
        assert(out@ =~= out@ + emit_top(s, i as int, skip_accounts));
    }
}

/// The entry of the table `t` under `accounts`, if any.
fn accounts_entry(t: &Vec<(String, TomlValue)>) -> (res: Option<&TomlValue>)
    ensures
        match res {
            Some(v) => table_get(entries_tree(t@), "accounts"@) == Some(v.tree()),
            None => table_get(entries_tree(t@), "accounts"@) is None,
        },
{
    let ghost s = entries_tree(t@);
    let mut i: usize = 0;
    assert(s.skip(0) =~= s);
    while i < t.len()
        invariant
            0 <= i <= t.len(),
            s == entries_tree(t@),
            table_get(s, "accounts"@) == table_get(s.skip(i as int), "accounts"@),
        decreases t.len() - i,
    {
        proof {
            assert(s.skip(i as int)[0] == s[i as int]);
            assert(s[i as int] == (t@[i as int].0@, t@[i as int].1.tree()));
            assert(s.skip(i as int).drop_first() =~= s.skip(i + 1));
        }
        if same_text(t[i].0.as_str(), "accounts") {
            return Some(&t[i].1);
        }
        i = i + 1;
    }
    None
}

/// Serializes a config value to a compact TOML document tuned for a
/// wizard's output: the per-account tables (`[accounts.<name>]`) are the
/// only table headers, and every nested table is flattened into dotted
/// keys rather than sub-headers or inline tables. Arrays and scalars
/// render on one line. Empty tables produce nothing. A value carrying no
/// `accounts` table comes out as a flat list of dotted keys, an
/// `accounts` entry that is not a table among them.
pub fn to_string(value: &TomlValue) -> (res: String)
    ensures
        res@ == document_text(value.tree()),
{
    match value {
        TomlValue::Table(root) => {
            proof {
                lemma_table_tree(*root);
            }
            let mut out = String::new();
            let accounts = accounts_entry(root);
            let skip_accounts = match accounts {
                Some(TomlValue::Table(_)) => true,
                _ => false,
            };
            emit_top_entries(&mut out, root, skip_accounts);
            match accounts {
                Some(TomlValue::Table(accounts)) => {
                    proof {
                        lemma_table_tree(*accounts);
                    }
                    let ghost a = entries_tree(accounts@);
                    let ghost top = out@;
                    let mut i: usize = 0;
                    while i < accounts.len()
                        invariant
                            0 <= i <= accounts.len(),
                            a == entries_tree(accounts@),
                            emit_accounts(out@, a, i as int) == emit_accounts(top, a, 0),
                        decreases accounts.len() - i,
                    {
                        proof {
                            assert(a[i as int] == (
                                accounts@[i as int].0@,
                                accounts@[i as int].1.tree(),
                            ));
                        }
                        let ghost before = out@;
                        if out.as_str().unicode_len() > 0 {
                            out.append("\n");
                        }
                        out.append("[accounts.");
                        let name = bare_or_quoted(accounts[i].0.as_str());
                        out.append(name.as_str());
                        out.append("]\n");
                        match &accounts[i].1 {
                            TomlValue::Table(fields) => {
                                proof {
                                    lemma_table_tree(*fields);
                                }
                                emit_top_entries(&mut out, fields, false);
                            },
                            _ => {},
                        }
                        proof {
                            let sep = if before.len() > 0 {
                                "\n"@
                            } else {
                                Seq::empty()
                            };
                            let header = "[accounts."@ + key_text(a[i as int].0) + "]\n"@;
                            let fields = match a[i as int].1 {
                                TomlTree::Table(f) => emit_top(f, 0, false),
                                _ => Seq::empty(),
                            };
                            assert(out@ =~= before + sep + header + fields);
                        }
                        i = i + 1;
                    }
                },
                _ => {},
            }
            out
        },
        _ => inline_text(value),
    }
}

/// Whether `t` is a table holding nothing but tables, recursively: a
/// value with no scalar or array anywhere in it.
pub open spec fn only_empty_tables(t: TomlTree) -> bool
    decreases t,
{
    match t {
        TomlTree::Table(s) => forall|i: int|
            0 <= i < s.len() ==> only_empty_tables(#[trigger] s[i].1),
        _ => false,
    }
}

/// Empty tables produce nothing: a table holding only tables, however
/// deep, writes no line.
pub proof fn lemma_empty_tables_write_nothing(key: Seq<char>, t: TomlTree)
    requires
        only_empty_tables(t),
    ensures
        emit_text(key, t) == Seq::<char>::empty(),
    decreases t, 0int,
{
    if let TomlTree::Table(s) = t {
        lemma_empty_entries_write_nothing(key, s, 0);
    }
}

proof fn lemma_empty_entries_write_nothing(key: Seq<char>, s: Seq<(Seq<char>, TomlTree)>, i: int)
    requires
        forall|j: int| 0 <= j < s.len() ==> only_empty_tables(#[trigger] s[j].1),
    ensures
        emit_entries(key, s, i) == Seq::<char>::empty(),
    decreases s, s.len() - i,
{
    if 0 <= i < s.len() {
        assert(decreases_to!(s => s[i]));
        assert(only_empty_tables(s[i].1));
        lemma_empty_tables_write_nothing(key + "."@ + key_text(s[i].0), s[i].1);
        lemma_empty_entries_write_nothing(key, s, i + 1);
        assert(emit_entries(key, s, i) =~= Seq::<char>::empty());
    }
}

/// A document with no `accounts` table is a flat list of dotted keys:
/// all its top-level entries, `accounts` too when it is not a table,
/// each written under its own key, and no table header.
pub proof fn lemma_no_accounts_is_flat(root: Seq<(Seq<char>, TomlTree)>)
    requires
        !(table_get(root, "accounts"@) matches Some(TomlTree::Table(_))),
    ensures
        document_text(TomlTree::Table(root)) == emit_top(root, 0, false),
{
}

/// Whether a line of `t` begins at position `i`: at the start of the
/// text or just after a newline.
pub open spec fn line_start(t: Seq<char>, i: int) -> bool {
    0 <= i < t.len() && (i == 0 || t[i - 1] == '\n')
}

/// Whether no line of `t` but the first starts with `[`.
pub open spec fn later_lines_plain(t: Seq<char>) -> bool {
    forall|i: int| 0 < i && #[trigger] line_start(t, i) ==> t[i] != '['
}

/// Whether every line of `t` ends with a newline and every line of it
/// that starts with `[` is an account header, `[accounts.` followed by
/// the account's name.
pub open spec fn header_lines_only(t: Seq<char>) -> bool {
    &&& (t.len() == 0 || t.last() == '\n')
    &&& forall|i: int|
        #[trigger] line_start(t, i) && t[i] == '[' ==> i + 10 <= t.len() && t.subrange(i, i + 10)
            == "[accounts."@
}

/// Whether every value below `t` that is written on one line, as `toml`
/// renders it inline, keeps the later lines of its text, if it has any,
/// from starting with `[`.
pub open spec fn inline_plain(t: TomlTree) -> bool
    decreases t,
{
    match t {
        TomlTree::Table(s) => forall|i: int| 0 <= i < s.len() ==> inline_plain(#[trigger] s[i].1),
        _ => later_lines_plain(toml_inline(t)),
    }
}

/// Whether `k` can head a line of the document: not empty, not starting
/// with `[`, and holding no newline.
pub open spec fn line_key(k: Seq<char>) -> bool {
    k.len() > 0 && k[0] != '[' && forall|j: int| 0 <= j < k.len() ==> #[trigger] k[j] != '\n'
}

proof fn lemma_escape_char_one_line(c: char)
    ensures
        forall|j: int| 0 <= j < escape_char(c).len() ==> #[trigger] escape_char(c)[j] != '\n',
{
}

proof fn lemma_escaped_one_line(s: Seq<char>)
    ensures
        forall|j: int| 0 <= j < escaped(s).len() ==> #[trigger] escaped(s)[j] != '\n',
    decreases s.len(),
{
    if s.len() > 0 {
        lemma_escaped_one_line(s.drop_last());
        lemma_escape_char_one_line(s.last());
        let a = escaped(s.drop_last());
        let b = escape_char(s.last());
        assert forall|j: int| 0 <= j < escaped(s).len() implies #[trigger] escaped(s)[j] != '\n' by {
            if j < a.len() {
                assert(escaped(s)[j] == a[j]);
            } else {
                assert(escaped(s)[j] == b[j - a.len()]);
            }
        }
    }
}

/// A key as the serializer writes it can head a line.
proof fn lemma_key_text_line_key(k: Seq<char>)
    ensures
        line_key(key_text(k)),
{
    if !is_bare_key(k) {
        lemma_escaped_one_line(k);
        let t = key_text(k);
        let e = escaped(k);
        assert forall|j: int| 0 <= j < t.len() implies #[trigger] t[j] != '\n' by {
            if 0 < j < t.len() - 1 {
                assert(t[j] == e[j - 1]);
            }
        }
    } else {
        assert(is_bare_char(k[0]));
        assert forall|j: int| 0 <= j < k.len() implies #[trigger] k[j] != '\n' by {
            assert(is_bare_char(k[j]));
        }
    }
}

/// Two texts whose lines all end with a newline, and whose lines that
/// start with `[` are account headers, make one such text.
proof fn lemma_header_lines_concat(a: Seq<char>, b: Seq<char>)
    requires
        header_lines_only(a),
        header_lines_only(b),
    ensures
        header_lines_only(a + b),
{
    let t = a + b;
    assert forall|i: int| #[trigger] line_start(t, i) && t[i] == '[' implies i + 10 <= t.len()
        && t.subrange(i, i + 10) == "[accounts."@ by {
        if i < a.len() {
            assert(t[i] == a[i]);
            if i > 0 {
                assert(t[i - 1] == a[i - 1]);
            }
            assert(line_start(a, i));
            assert(t.subrange(i, i + 10) =~= a.subrange(i, i + 10));
        } else {
            let j = i - a.len();
            assert(t[i] == b[j]);
            if j > 0 {
                assert(t[i - 1] == b[j - 1]);
            } else if i > 0 {
                assert(t[i - 1] == a.last());
            }
            assert(line_start(b, j));
            assert(t.subrange(i, i + 10) =~= b.subrange(j, j + 10));
        }
    }
    if b.len() > 0 {
        assert(t.last() == b.last());
    } else {
        assert(t =~= a);
    }
}

/// The line written for a value under a key that can head a line: its
/// only line starting with `[`, if any, is none.
proof fn lemma_value_line(key: Seq<char>, v: Seq<char>)
    requires
        line_key(key),
        later_lines_plain(v),
    ensures
        header_lines_only(key + " = "@ + v + "\n"@),
{
    reveal_strlit(" = ");
    reveal_strlit("\n");
    let t = key + " = "@ + v + "\n"@;
    let n = key.len() + 3;
    assert forall|i: int| #[trigger] line_start(t, i) && t[i] == '[' implies i + 10 <= t.len()
        && t.subrange(i, i + 10) == "[accounts."@ by {
        if i == 0 {
            assert(t[0] == key[0]);
        } else if i - 1 < key.len() {
            assert(t[i - 1] == key[i - 1]);
        } else if i - 1 < n {
            assert(t[i - 1] == " = "@[i - 1 - key.len()]);
        } else if i < n + v.len() {
            assert(t[i - 1] == v[i - 1 - n]);
            assert(t[i] == v[i - n]);
            assert(line_start(v, i - n));
        } else {
            assert(t[i] == '\n');
        }
    }
}

/// The lines written for a value under a key that can head a line: none
/// of them starts with `[`.
proof fn lemma_emit_text_lines(key: Seq<char>, item: TomlTree)
    requires
        line_key(key),
        inline_plain(item),
    ensures
        header_lines_only(emit_text(key, item)),
    decreases item, 0int,
{
    match item {
        TomlTree::Table(s) => {
            lemma_emit_entries_lines(key, s, 0);
        },
        _ => {
            lemma_value_line(key, toml_inline(item));
        },
    }
}

proof fn lemma_emit_entries_lines(key: Seq<char>, s: Seq<(Seq<char>, TomlTree)>, i: int)
    requires
        line_key(key),
        forall|j: int| 0 <= j < s.len() ==> inline_plain(#[trigger] s[j].1),
    ensures
        header_lines_only(emit_entries(key, s, i)),
    decreases s, s.len() - i,
{
    if 0 <= i < s.len() {
        assert(decreases_to!(s => s[i]));
        let sub = key + "."@ + key_text(s[i].0);
        lemma_key_text_line_key(s[i].0);
        reveal_strlit(".");
        assert(line_key(sub)) by {
            let kt = key_text(s[i].0);
            assert(sub[0] == key[0]);
            assert forall|j: int| 0 <= j < sub.len() implies #[trigger] sub[j] != '\n' by {
                if j < key.len() {
                    assert(sub[j] == key[j]);
                } else if j > key.len() {
                    assert(sub[j] == kt[j - key.len() - 1]);
                }
            }
        }
        assert(inline_plain(s[i].1));
        lemma_emit_text_lines(sub, s[i].1);
        lemma_emit_entries_lines(key, s, i + 1);
        lemma_header_lines_concat(emit_text(sub, s[i].1), emit_entries(key, s, i + 1));
    } else {
        assert(emit_entries(key, s, i) =~= Seq::<char>::empty());
    }
}

proof fn lemma_emit_top_lines(s: Seq<(Seq<char>, TomlTree)>, i: int, skip_accounts: bool)
    requires
        forall|j: int| 0 <= j < s.len() ==> inline_plain(#[trigger] s[j].1),
    ensures
        header_lines_only(emit_top(s, i, skip_accounts)),
    decreases s.len() - i,
{
    if 0 <= i < s.len() {
        lemma_emit_top_lines(s, i + 1, skip_accounts);
        if !(skip_accounts && s[i].0 == "accounts"@) {
            lemma_key_text_line_key(s[i].0);
            assert(inline_plain(s[i].1));
            lemma_emit_text_lines(key_text(s[i].0), s[i].1);
            lemma_header_lines_concat(
                emit_text(key_text(s[i].0), s[i].1),
                emit_top(s, i + 1, skip_accounts),
            );
        }
    } else {
        assert(emit_top(s, i, skip_accounts) =~= Seq::<char>::empty());
    }
}

/// An account header is a line of its own that starts `[accounts.`.
proof fn lemma_header_line(name: Seq<char>)
    ensures
        header_lines_only("[accounts."@ + key_text(name) + "]\n"@),
{
    reveal_strlit("[accounts.");
    reveal_strlit("]\n");
    lemma_key_text_line_key(name);
    let kt = key_text(name);
    let t = "[accounts."@ + kt + "]\n"@;
    assert forall|i: int| #[trigger] line_start(t, i) && t[i] == '[' implies i + 10 <= t.len()
        && t.subrange(i, i + 10) == "[accounts."@ by {
        if i > 0 {
            if i - 1 < 10 {
                assert(t[i - 1] == "[accounts."@[i - 1]);
            } else if i - 1 < 10 + kt.len() {
                assert(t[i - 1] == kt[i - 11]);
            } else {
                assert(t[i - 1] == ']');
            }
        }
        assert(t.subrange(0, 10) =~= "[accounts."@);
    }
}

proof fn lemma_emit_accounts_lines(out: Seq<char>, a: Seq<(Seq<char>, TomlTree)>, i: int)
    requires
        header_lines_only(out),
        forall|j: int| 0 <= j < a.len() ==> inline_plain(#[trigger] a[j].1),
    ensures
        header_lines_only(emit_accounts(out, a, i)),
    decreases a.len() - i,
{
    if 0 <= i < a.len() {
        let sep = if out.len() > 0 {
            "\n"@
        } else {
            Seq::empty()
        };
        let header = "[accounts."@ + key_text(a[i].0) + "]\n"@;
        let fields = match a[i].1 {
            TomlTree::Table(f) => emit_top(f, 0, false),
            _ => Seq::empty(),
        };
        reveal_strlit("\n");
        assert(header_lines_only(sep)) by {
            assert forall|k: int| #[trigger] line_start(sep, k) && sep[k] == '[' implies k + 10
                <= sep.len() && sep.subrange(k, k + 10) == "[accounts."@ by {
                assert(sep[k] == '\n');
            }
        }
        lemma_header_line(a[i].0);
        assert(inline_plain(a[i].1));
        match a[i].1 {
            TomlTree::Table(f) => {
                lemma_emit_top_lines(f, 0, false);
            },
            _ => {
                assert(header_lines_only(fields));
            },
        }
        lemma_header_lines_concat(out, sep);
        lemma_header_lines_concat(out + sep, header);
        lemma_header_lines_concat(out + sep + header, fields);
        lemma_emit_accounts_lines(out + sep + header + fields, a, i + 1);
    }
}

/// The account sections are the only table headers: in the document
/// written for a table, every line that starts with `[` is an account
/// header `[accounts.<name>]`, as long as no value's one-line rendering
/// itself holds a line that starts with `[`.
pub proof fn lemma_only_account_headers(root: Seq<(Seq<char>, TomlTree)>)
    requires
        inline_plain(TomlTree::Table(root)),
    ensures
        header_lines_only(document_text(TomlTree::Table(root))),
{
    let t = TomlTree::Table(root);
    assert forall|j: int| 0 <= j < root.len() implies inline_plain(#[trigger] root[j].1) by {
        assert(root[j] == t->Table_0[j]);
    }
    match table_get(root, "accounts"@) {
        Some(TomlTree::Table(a)) => {
            lemma_emit_top_lines(root, 0, true);
            lemma_get_index(root, "accounts"@);
            let j = choose|j: int|
                0 <= j < root.len() && #[trigger] root[j] == ("accounts"@, TomlTree::Table(a));
            assert(inline_plain(root[j].1));
            lemma_emit_accounts_lines(emit_top(root, 0, true), a, 0);
        },
        _ => {
            lemma_emit_top_lines(root, 0, false);
        },
    }
}

proof fn lemma_escape_char_len(c: char)
    ensures
        escape_char(c).len() >= 1,
{
}

proof fn lemma_escaped_len(s: Seq<char>)
    ensures
        escaped(s).len() >= s.len(),
    decreases s.len(),
{
    if s.len() > 0 {
        lemma_escaped_len(s.drop_last());
        lemma_escape_char_len(s.last());
    }
}

/// A key is written bare, as itself, exactly when it is not empty and
/// every character of it is an ASCII letter, an ASCII digit, `-` or
/// `_`; any other key is written between quotation marks.
pub proof fn lemma_bare_keys(k: Seq<char>)
    ensures
        (key_text(k) == k) == (k.len() > 0 && forall|i: int|
            0 <= i < k.len() ==> {
                let c = #[trigger] k[i];
                ||| 'a' <= c <= 'z'
                ||| 'A' <= c <= 'Z'
                ||| '0' <= c <= '9'
                ||| c == '-'
                ||| c == '_'
            }),
        key_text(k) != k ==> key_text(k).len() >= 2 && key_text(k)[0] == '"' && key_text(k).last()
            == '"',
{
    if !is_bare_key(k) {
        lemma_escaped_len(k);
        assert(key_text(k).len() > k.len());
    }
}

/// The value of an upper-case hexadecimal digit.
pub open spec fn hex_value(c: char) -> int {
    if '0' <= c && c <= '9' {
        c as int - 48
    } else {
        c as int - 55
    }
}

/// The characters that the body `t` of a TOML basic string stands for:
/// each escape read back as the character it names (`\uXXXX` by its
/// code), every other character as itself.
pub open spec fn unescaped(t: Seq<char>) -> Seq<char>
    decreases t.len(),
{
    if t.len() == 0 {
        Seq::empty()
    } else if t[0] == '\\' && t.len() >= 2 {
        let e = t[1];
        if e == 'u' && t.len() >= 6 {
            seq![
                (hex_value(t[2]) * 4096 + hex_value(t[3]) * 256 + hex_value(t[4]) * 16
                    + hex_value(t[5])) as char,
            ] + unescaped(t.skip(6))
        } else {
            let c = if e == 'b' {
                '\u{8}'
            } else if e == 't' {
                '\t'
            } else if e == 'n' {
                '\n'
            } else if e == 'f' {
                '\u{c}'
            } else if e == 'r' {
                '\r'
            } else {
                e
            };
            seq![c] + unescaped(t.skip(2))
        }
    } else {
        seq![t[0]] + unescaped(t.drop_first())
    }
}

proof fn lemma_escaped_front(c: char, s: Seq<char>)
    ensures
        escaped(seq![c] + s) == escape_char(c) + escaped(s),
    decreases s.len(),
{
    let u = seq![c] + s;
    if s.len() == 0 {
        assert(u.drop_last() =~= Seq::<char>::empty());
        assert(escaped(u.drop_last()) =~= Seq::<char>::empty());
        assert(u.last() == c);
        assert(escaped(s) =~= Seq::<char>::empty());
        assert(escaped(u) =~= escape_char(c) + escaped(s));
    } else {
        assert(u.drop_last() =~= seq![c] + s.drop_last());
        assert(u.last() == s.last());
        lemma_escaped_front(c, s.drop_last());
        assert(escaped(u) =~= escape_char(c) + escaped(s));
    }
}

proof fn lemma_unescape_char(c: char, r: Seq<char>)
    ensures
        unescaped(escape_char(c) + r) == seq![c] + unescaped(r),
{
    let t = escape_char(c) + r;
    if c == '"' || c == '\\' || c == '\u{8}' || c == '\t' || c == '\n' || c == '\u{c}' || c
        == '\r' {
        assert(t.skip(2) =~= r);
    } else if is_control(c) {
        let n = c as u32 as int;
        assert(t.skip(6) =~= r);
        assert(t[2] == '0' && t[3] == '0');
        assert(hex_value(t[4]) == n / 16);
        assert(hex_value(t[5]) == n % 16);
        assert(hex_value(t[2]) * 4096 + hex_value(t[3]) * 256 + hex_value(t[4]) * 16 + hex_value(
            t[5],
        ) == n);
    } else {
        assert(t[0] == c);
        assert(t.drop_first() =~= r);
    }
}

proof fn lemma_unescaped_escaped(s: Seq<char>)
    ensures
        unescaped(escaped(s)) == s,
    decreases s.len(),
{
    if s.len() == 0 {
        assert(escaped(s) =~= Seq::<char>::empty());
    } else {
        let rest = s.drop_first();
        assert(s =~= seq![s[0]] + rest);
        lemma_escaped_front(s[0], rest);
        lemma_unescape_char(s[0], escaped(rest));
        lemma_unescaped_escaped(rest);
    }
}

proof fn lemma_escape_char_no_control(c: char)
    ensures
        forall|j: int| 0 <= j < escape_char(c).len() ==> !is_control(#[trigger] escape_char(c)[j]),
{
}

proof fn lemma_escaped_no_control(s: Seq<char>)
    ensures
        forall|j: int| 0 <= j < escaped(s).len() ==> !is_control(#[trigger] escaped(s)[j]),
    decreases s.len(),
{
    if s.len() > 0 {
        lemma_escaped_no_control(s.drop_last());
        lemma_escape_char_no_control(s.last());
        let a = escaped(s.drop_last());
        let b = escape_char(s.last());
        assert forall|j: int| 0 <= j < escaped(s).len() implies !is_control(
            #[trigger] escaped(s)[j],
        ) by {
            if j < a.len() {
                assert(escaped(s)[j] == a[j]);
            } else {
                assert(escaped(s)[j] == b[j - a.len()]);
            }
        }
    }
}

/// A key written between quotation marks reads back as the same key: the
/// text between the marks holds no control character and, its escapes
/// read back, is the key itself.
pub proof fn lemma_quoted_key_reads_back(k: Seq<char>)
    requires
        key_text(k) != k,
    ensures
        key_text(k).len() >= 2,
        key_text(k)[0] == '"',
        key_text(k).last() == '"',
        unescaped(key_text(k).subrange(1, key_text(k).len() - 1)) == k,
        forall|j: int|
            1 <= j < key_text(k).len() - 1 ==> !is_control(#[trigger] key_text(k)[j]),
{
    let body = escaped(k);
    assert(key_text(k).subrange(1, key_text(k).len() - 1) =~= body);
    lemma_unescaped_escaped(k);
    lemma_escaped_no_control(k);
    assert forall|j: int| 1 <= j < key_text(k).len() - 1 implies !is_control(
        #[trigger] key_text(k)[j],
    ) by {
        assert(key_text(k)[j] == body[j - 1]);
    }
}

} // verus!
